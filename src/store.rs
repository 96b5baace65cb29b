//! The witness store: the main advice column of a halo2-base circuit builder,
//! and the circuit operations that the codec emits into it.
//!
//! Cells are named by their position in the column (a handle). Every
//! operation takes handles, and hands back the handles of the cells it
//! creates, or `None` where the builder does not record cell positions.
//! Operand cells are handed to halo2-base with their values evaluated, so a
//! cell committed as a fraction is read as the field element it denotes.
use halo2_base::gates::circuit::builder::BaseCircuitBuilder;
use halo2_base::gates::{GateInstructions, RangeChip, RangeInstructions};
use halo2_base::halo2_proofs::halo2curves::bn256::{Fq as Bn254Fq, Fr};
use halo2_base::halo2_proofs::halo2curves::ff::PrimeField;
use halo2_base::halo2_proofs::halo2curves::secp256k1::{Fp as Secp256k1Fp, Fq as Secp256k1Fq};
use halo2_base::halo2_proofs::plonk::Assigned;
use halo2_base::AssignedValue;
use halo2_base::QuantumCell::Constant;
use halo2_ecc::fields::fp::FpChip;
use halo2_ecc::fields::FieldChip;
use num_bigint::BigUint;
use vstd::arithmetic::power2::pow2;
use vstd::prelude::*;

use crate::codec::HiLo;

verus! {

/// The modulus of the BN254 scalar field, the native field of the circuit:
/// 21888242871839275222246405745257275088548364400416034343698204186575808495617.
pub open spec fn native_modulus() -> nat {
    native_modulus_halves().value()
}

/// A non-native prime field whose elements the circuit carries as limbs.
#[derive(Clone, Copy, Debug, PartialEq, Eq, Structural)]
pub enum ForeignField {
    /// The BN254 base field.
    Bn254Fq,
    /// The secp256k1 base field.
    Secp256k1Fp,
    /// The secp256k1 scalar field.
    Secp256k1Fq,
}

impl ForeignField {
    /// The field's prime modulus, as two halves.
    pub open spec fn modulus(self) -> HiLo {
        match self {
            ForeignField::Bn254Fq => HiLo {
                hi: 0x30644e72e131a029b85045b68181585d,
                lo: 0x97816a916871ca8d3c208c16d87cfd47,
            },
            ForeignField::Secp256k1Fp => HiLo {
                hi: 0xffffffffffffffffffffffffffffffff,
                lo: 0xfffffffffffffffffffffffefffffc2f,
            },
            ForeignField::Secp256k1Fq => HiLo {
                hi: 0xfffffffffffffffffffffffffffffffe,
                lo: 0xbaaedce6af48a03bbfd25e8cd0364141,
            },
        }
    }

    /// The field's prime modulus, as two halves.
    pub fn field_modulus(&self) -> (r: HiLo)
        ensures
            r == self.modulus(),
    {
        match self {
            ForeignField::Bn254Fq => HiLo {
                hi: 0x30644e72e131a029b85045b68181585d,
                lo: 0x97816a916871ca8d3c208c16d87cfd47,
            },
            ForeignField::Secp256k1Fp => HiLo {
                hi: 0xffffffffffffffffffffffffffffffff,
                lo: 0xfffffffffffffffffffffffefffffc2f,
            },
            ForeignField::Secp256k1Fq => HiLo {
                hi: 0xfffffffffffffffffffffffffffffffe,
                lo: 0xbaaedce6af48a03bbfd25e8cd0364141,
            },
        }
    }
}

/// The modulus of the native field, as two halves.
pub open spec fn native_modulus_halves() -> HiLo {
    HiLo { hi: 0x30644e72e131a029b85045b68181585d, lo: 0x2833e84879b9709143e1f593f0000001 }
}

/// The modulus of the native field, as two halves.
pub fn native_field_modulus() -> (r: HiLo)
    ensures
        r == native_modulus_halves(),
        r.value() == native_modulus(),
{
    HiLo { hi: 0x30644e72e131a029b85045b68181585d, lo: 0x2833e84879b9709143e1f593f0000001 }
}

/// A circuit under construction over the BN254 scalar field, with the range
/// chip that its operations use.
#[verifier::external_body]
pub struct WitnessStore {
    pub builder: BaseCircuitBuilder<Fr>,
    pub range: RangeChip<Fr>,
}

/// The host values of the committed cells of the main context, by position.
pub uninterp spec fn cell_values(s: WitnessStore) -> Seq<int>;

/// The width of the range chip's lookup table.
pub uninterp spec fn lookup_bits(s: WitnessStore) -> nat;

/// Whether the builder records the position of each cell it commits; a
/// builder set up for a prover alone does not.
pub uninterp spec fn records_positions(s: WitnessStore) -> bool;

/// Whether the store's own values satisfy every constraint recorded so far:
/// the gates, the copy and constant constraints, and the lookups into the
/// range table.
pub uninterp spec fn satisfied(s: WitnessStore) -> bool;

/// `b` starts with `a`.
pub open spec fn extends<T>(a: Seq<T>, b: Seq<T>) -> bool {
    a.len() <= b.len() && forall|i: int| 0 <= i < a.len() ==> #[trigger] b[i] == a[i]
}

/// `new` keeps every cell of `old` in place, the same lookup width and
/// recording of positions, and no constraint that `old`'s values break is
/// mended by what was added.
pub open spec fn grows(old: WitnessStore, new: WitnessStore) -> bool {
    &&& extends(cell_values(old), cell_values(new))
    &&& same_setup(old, new)
    &&& (satisfied(new) ==> satisfied(old))
}

/// What was added is met by the store's own values.
pub open spec fn keeps_satisfied(old: WitnessStore, new: WitnessStore) -> bool {
    satisfied(old) ==> satisfied(new)
}

/// A handed-back handle names a cell that the call committed.
pub open spec fn fresh(old: WitnessStore, r: Option<usize>) -> bool {
    r is Some ==> r->0 >= cell_values(old).len()
}

/// The lookup width and the recording of positions are unchanged.
pub open spec fn same_setup(old: WitnessStore, new: WitnessStore) -> bool {
    lookup_bits(new) == lookup_bits(old) && records_positions(new) == records_positions(old)
}

/// A builder that records positions hands back the handle of each new cell.
pub open spec fn hands_back(old: WitnessStore, r: Option<usize>) -> bool {
    records_positions(old) ==> r is Some
}

/// `h` is a cell of `s` that holds `v`.
pub open spec fn holds(s: WitnessStore, h: usize, v: int) -> bool {
    h < cell_values(s).len() && cell_values(s)[h as int] == v
}

/// A handle that an operation handed back names a cell that holds `v`.
pub open spec fn gives(s: WitnessStore, r: Option<usize>, v: int) -> bool {
    r is Some ==> holds(s, r->0, v)
}

/// The store grew, and the three handed-back cells hold the base-`2^88`
/// digits of `v`, least significant first.
pub open spec fn loads_digits(old: WitnessStore, new: WitnessStore, r: [Option<usize>; 3], v: HiLo) -> bool {
    &&& grows(old, new)
    &&& hands_back(old, r[0]) && hands_back(old, r[1]) && hands_back(old, r[2])
    &&& fresh(old, r[0]) && fresh(old, r[1]) && fresh(old, r[2])
    &&& keeps_satisfied(old, new)
    &&& gives(new, r[0], v.value() as int % pow2(88) as int)
    &&& gives(new, r[1], (v.value() as int / pow2(88) as int) % pow2(88) as int)
    &&& gives(new, r[2], v.value() as int / pow2(176) as int)
}

/// Lookup widths for which every operation here stays within the field's
/// capacity.
pub open spec fn usable_lookup_bits(b: nat) -> bool {
    0 < b < 64
}

impl WitnessStore {
    /// Relies on `BaseCircuitBuilder::new(false)`, which records cell
    /// positions, and `BaseCircuitBuilder::range_chip`, which builds a range
    /// chip with the given lookup width. The new builder has no cells and no
    /// constraints.
    #[verifier::external_body]
    fn with_lookup_bits(lookup_bits_width: usize) -> (r: WitnessStore)
        requires
            usable_lookup_bits(lookup_bits_width as nat),
        ensures
            cell_values(r).len() == 0,
            lookup_bits(r) == lookup_bits_width,
            records_positions(r),
            satisfied(r),
    {
        let builder = BaseCircuitBuilder::new(false).use_lookup_bits(lookup_bits_width);
        let range = builder.range_chip();
        WitnessStore { builder, range }
    }

    /// An empty circuit whose range checks use a lookup table of
    /// `lookup_bits_width` bits, recording the position of every cell. With
    /// no constraint yet, its values satisfy the circuit.
    pub fn new(lookup_bits_width: usize) -> (r: WitnessStore)
        requires
            usable_lookup_bits(lookup_bits_width as nat),
        ensures
            cell_values(r).len() == 0,
            lookup_bits(r) == lookup_bits_width,
            records_positions(r),
            satisfied(r),
    {
        Self::with_lookup_bits(lookup_bits_width)
    }

    /// Relies on `Context::advice`: one entry per committed cell.
    #[verifier::external_body]
    pub(crate) fn committed_count(&self) -> (r: usize)
        ensures
            r == cell_values(*self).len(),
    {
        self.builder.core().phase_manager[0].threads.last().map_or(0, |c| c.advice.len())
    }

    /// Relies on `Assigned::evaluate` and `PrimeField::to_repr`: the
    /// canonical little-endian bytes of the cell's value, an element of the
    /// native field, read as two halves.
    #[verifier::external_body]
    pub(crate) fn cell_value(&self, h: usize) -> (r: HiLo)
        requires
            h < cell_values(*self).len(),
        ensures
            r.value() == cell_values(*self)[h as int],
            r.value() < native_modulus(),
    {
        let ctx = self.builder.core().phase_manager[0].threads.last().unwrap();
        let bytes = ctx.advice[h].evaluate().to_repr();
        let lo = u128::from_le_bytes(bytes[..16].try_into().unwrap());
        let hi = u128::from_le_bytes(bytes[16..].try_into().unwrap());
        HiLo { hi, lo }
    }

    /// Relies on `Context::load_witness`: appends one cell that holds `v`.
    #[verifier::external_body]
    pub(crate) fn load_witness(&mut self, v: HiLo) -> (r: Option<usize>)
        requires
            v.value() < native_modulus(),
        ensures
            cell_values(*final(self)) == cell_values(*old(self)).push(v.value() as int),
            same_setup(*old(self), *final(self)),
            satisfied(*final(self)) == satisfied(*old(self)),
            hands_back(*old(self), r),
            r is Some ==> r->0 == cell_values(*old(self)).len(),
    {
        let mut bytes = [0u8; 32];
        bytes[..16].copy_from_slice(&v.lo.to_le_bytes());
        bytes[16..].copy_from_slice(&v.hi.to_le_bytes());
        let x = Fr::from_repr(bytes).unwrap();
        self.builder.main(0).load_witness(x).cell.map(|c| c.offset)
    }

    /// Relies on `Context::load_constant`: appends one cell that holds `v`,
    /// fixed as a constant of the circuit.
    #[verifier::external_body]
    pub(crate) fn load_constant(&mut self, v: HiLo) -> (r: Option<usize>)
        requires
            v.value() < native_modulus(),
        ensures
            cell_values(*final(self)) == cell_values(*old(self)).push(v.value() as int),
            same_setup(*old(self), *final(self)),
            satisfied(*final(self)) == satisfied(*old(self)),
            hands_back(*old(self), r),
            r is Some ==> r->0 == cell_values(*old(self)).len(),
    {
        let mut bytes = [0u8; 32];
        bytes[..16].copy_from_slice(&v.lo.to_le_bytes());
        bytes[16..].copy_from_slice(&v.hi.to_le_bytes());
        let x = Fr::from_repr(bytes).unwrap();
        self.builder.main(0).load_constant(x).cell.map(|c| c.offset)
    }

    /// Relies on `Context::constrain_equal`: records a copy constraint
    /// between two cells, where the builder records positions, and commits
    /// none.
    #[verifier::external_body]
    pub(crate) fn constrain_equal(&mut self, a: usize, b: usize)
        requires
            a < cell_values(*old(self)).len(),
            b < cell_values(*old(self)).len(),
        ensures
            cell_values(*final(self)) == cell_values(*old(self)),
            same_setup(*old(self), *final(self)),
            satisfied(*final(self)) ==> satisfied(*old(self)),
            satisfied(*old(self)) && cell_values(*old(self))[a as int] == cell_values(*old(self))[b as int]
                ==> satisfied(*final(self)),
            records_positions(*old(self)) && satisfied(*final(self)) ==> cell_values(*old(self))[a as int]
                == cell_values(*old(self))[b as int],
    {
        let ctx = self.builder.main(0);
        let (a, b) = (ctx.get(a as isize), ctx.get(b as isize));
        ctx.constrain_equal(&a, &b);
    }

    /// Relies on `RangeChip::div_mod`: the quotient and remainder of the
    /// cell's value by `d`, as new cells, constrained for an `a` of at most
    /// `num_bits` bits.
    #[verifier::external_body]
    pub(crate) fn div_mod(&mut self, a: usize, d: HiLo, num_bits: usize) -> (r: (Option<usize>, Option<usize>))
        requires
            a < cell_values(*old(self)).len(),
            0 < d.value() <= pow2(128),
            num_bits <= 128,
            usable_lookup_bits(lookup_bits(*old(self))),
        ensures
            grows(*old(self), *final(self)),
            hands_back(*old(self), r.0) && hands_back(*old(self), r.1),
            fresh(*old(self), r.0) && fresh(*old(self), r.1),
            cell_values(*old(self))[a as int] < pow2(num_bits as nat) ==> keeps_satisfied(
                *old(self),
                *final(self),
            ),
            gives(*final(self), r.0, cell_values(*old(self))[a as int] / (d.value() as int)),
            gives(*final(self), r.1, cell_values(*old(self))[a as int] % (d.value() as int)),
    {
        let ctx = self.builder.main(0);
        let a = ctx.get(a as isize);
        let a = AssignedValue { value: Assigned::Trivial(a.value.evaluate()), ..a };
        let d = BigUint::from_bytes_le(&[d.lo.to_le_bytes(), d.hi.to_le_bytes()].concat());
        let (q, m) = self.range.div_mod(ctx, a, d, num_bits);
        (q.cell.map(|c| c.offset), m.cell.map(|c| c.offset))
    }

    /// Relies on `GateInstructions::mul_add` with a constant factor: a new
    /// cell that holds `a * m + c` in the field.
    #[verifier::external_body]
    pub(crate) fn mul_add_const(&mut self, a: usize, m: HiLo, c: usize) -> (r: Option<usize>)
        requires
            a < cell_values(*old(self)).len(),
            c < cell_values(*old(self)).len(),
            m.value() < native_modulus(),
        ensures
            grows(*old(self), *final(self)),
            hands_back(*old(self), r),
            fresh(*old(self), r),
            keeps_satisfied(*old(self), *final(self)),
            gives(
                *final(self),
                r,
                (cell_values(*old(self))[a as int] * m.value() + cell_values(*old(self))[c as int]) % (
                native_modulus() as int),
            ),
    {
        let ctx = self.builder.main(0);
        let (a, c) = (ctx.get(a as isize), ctx.get(c as isize));
        let a = AssignedValue { value: Assigned::Trivial(a.value.evaluate()), ..a };
        let c = AssignedValue { value: Assigned::Trivial(c.value.evaluate()), ..c };
        let mut bytes = [0u8; 32];
        bytes[..16].copy_from_slice(&m.lo.to_le_bytes());
        bytes[16..].copy_from_slice(&m.hi.to_le_bytes());
        let out = self.range.gate().mul_add(ctx, a, Constant(Fr::from_repr(bytes).unwrap()), c);
        out.cell.map(|c| c.offset)
    }

    /// Relies on `RangeChip::range_check`: constrains the cell to `bits`
    /// bits, through limbs looked up in the range table.
    #[verifier::external_body]
    pub(crate) fn range_check(&mut self, a: usize, bits: usize)
        requires
            a < cell_values(*old(self)).len(),
            bits <= 128,
            usable_lookup_bits(lookup_bits(*old(self))),
        ensures
            grows(*old(self), *final(self)),
            cell_values(*old(self))[a as int] < pow2(bits as nat) ==> keeps_satisfied(*old(self), *final(self)),
            records_positions(*old(self)) && satisfied(*final(self)) ==> 0 <= cell_values(*old(self))[a as int]
                < pow2(bits as nat),
    {
        let ctx = self.builder.main(0);
        let a = ctx.get(a as isize);
        let a = AssignedValue { value: Assigned::Trivial(a.value.evaluate()), ..a };
        self.range.range_check(ctx, a, bits);
    }

    /// Relies on `RangeChip::is_less_than` against a constant: a new cell
    /// that holds 1 when the cell's value is below `c` and 0 otherwise, for
    /// values of at most `num_bits` bits.
    #[verifier::external_body]
    pub(crate) fn is_less_than_const(&mut self, a: usize, c: u128, num_bits: usize) -> (r: Option<usize>)
        requires
            a < cell_values(*old(self)).len(),
            0 < num_bits <= 128,
            c < pow2(num_bits as nat),
            usable_lookup_bits(lookup_bits(*old(self))),
        ensures
            grows(*old(self), *final(self)),
            hands_back(*old(self), r),
            r is Some ==> r->0 < cell_values(*final(self)).len(),
            fresh(*old(self), r),
            cell_values(*old(self))[a as int] < pow2(num_bits as nat) ==> keeps_satisfied(
                *old(self),
                *final(self),
            ),
            cell_values(*old(self))[a as int] < pow2(num_bits as nat) ==> gives(
                *final(self),
                r,
                if cell_values(*old(self))[a as int] < c {
                    1int
                } else {
                    0int
                },
            ),
    {
        let ctx = self.builder.main(0);
        let a = ctx.get(a as isize);
        let a = AssignedValue { value: Assigned::Trivial(a.value.evaluate()), ..a };
        let out = self.range.is_less_than(ctx, a, Constant(Fr::from_u128(c)), num_bits);
        out.cell.map(|c| c.offset)
    }

    /// Relies on `GateInstructions::is_equal` against a constant: a new cell
    /// that holds 1 when the cell's value is `c` and 0 otherwise.
    #[verifier::external_body]
    pub(crate) fn is_equal_const(&mut self, a: usize, c: u128) -> (r: Option<usize>)
        requires
            a < cell_values(*old(self)).len(),
        ensures
            grows(*old(self), *final(self)),
            hands_back(*old(self), r),
            fresh(*old(self), r),
            keeps_satisfied(*old(self), *final(self)),
            gives(
                *final(self),
                r,
                if cell_values(*old(self))[a as int] == c {
                    1int
                } else {
                    0int
                },
            ),
    {
        let ctx = self.builder.main(0);
        let a = ctx.get(a as isize);
        let a = AssignedValue { value: Assigned::Trivial(a.value.evaluate()), ..a };
        let out = self.range.gate().is_equal(ctx, a, Constant(Fr::from_u128(c)));
        out.cell.map(|c| c.offset)
    }

    /// Relies on `GateInstructions::and`: a new cell that holds `a * b` in
    /// the field, the conjunction of two bits.
    #[verifier::external_body]
    pub(crate) fn and(&mut self, a: usize, b: usize) -> (r: Option<usize>)
        requires
            a < cell_values(*old(self)).len(),
            b < cell_values(*old(self)).len(),
        ensures
            grows(*old(self), *final(self)),
            hands_back(*old(self), r),
            fresh(*old(self), r),
            keeps_satisfied(*old(self), *final(self)),
            gives(
                *final(self),
                r,
                (cell_values(*old(self))[a as int] * cell_values(*old(self))[b as int]) % (
                native_modulus() as int),
            ),
    {
        let ctx = self.builder.main(0);
        let (a, b) = (ctx.get(a as isize), ctx.get(b as isize));
        let a = AssignedValue { value: Assigned::Trivial(a.value.evaluate()), ..a };
        let b = AssignedValue { value: Assigned::Trivial(b.value.evaluate()), ..b };
        let out = self.range.gate().and(ctx, a, b);
        out.cell.map(|c| c.offset)
    }

    /// Relies on `GateInstructions::or`: a new cell that holds
    /// `a + b - a * b` in the field, the disjunction of two bits.
    #[verifier::external_body]
    pub(crate) fn or(&mut self, a: usize, b: usize) -> (r: Option<usize>)
        requires
            a < cell_values(*old(self)).len(),
            b < cell_values(*old(self)).len(),
        ensures
            grows(*old(self), *final(self)),
            hands_back(*old(self), r),
            fresh(*old(self), r),
            keeps_satisfied(*old(self), *final(self)),
            gives(
                *final(self),
                r,
                (cell_values(*old(self))[a as int] + cell_values(*old(self))[b as int]
                    - cell_values(*old(self))[a as int] * cell_values(*old(self))[b as int]) % (
                native_modulus() as int),
            ),
    {
        let ctx = self.builder.main(0);
        let (a, b) = (ctx.get(a as isize), ctx.get(b as isize));
        let a = AssignedValue { value: Assigned::Trivial(a.value.evaluate()), ..a };
        let b = AssignedValue { value: Assigned::Trivial(b.value.evaluate()), ..b };
        let out = self.range.gate().or(ctx, a, b);
        out.cell.map(|c| c.offset)
    }

    /// Relies on `GateInstructions::assert_is_const`: records a constraint
    /// fixing the cell to the constant `c`, where the builder records
    /// positions, and commits none.
    #[verifier::external_body]
    pub(crate) fn assert_is_const(&mut self, a: usize, c: u128)
        requires
            a < cell_values(*old(self)).len(),
        ensures
            cell_values(*final(self)) == cell_values(*old(self)),
            same_setup(*old(self), *final(self)),
            satisfied(*final(self)) ==> satisfied(*old(self)),
            satisfied(*old(self)) && cell_values(*old(self))[a as int] == c ==> satisfied(*final(self)),
            records_positions(*old(self)) && satisfied(*final(self)) ==> cell_values(*old(self))[a as int]
                == c,
    {
        let ctx = self.builder.main(0);
        let a = ctx.get(a as isize);
        self.range.gate().assert_is_const(ctx, &a, &Fr::from_u128(c));
    }

    /// Relies on `FpChip::<Fr, bn256::Fq>::new(range, 88, 3)` and its
    /// `load_private`: the element `v` as three new limb cells, its
    /// base-`2^88` digits, least significant first.
    #[verifier::external_body]
    fn load_bn254_fq(&mut self, v: HiLo) -> (r: [Option<usize>; 3])
        requires
            v.value() < ForeignField::Bn254Fq.modulus().value(),
            usable_lookup_bits(lookup_bits(*old(self))),
        ensures
            loads_digits(*old(self), *final(self), r, v),
    {
        let bytes: [u8; 32] = [v.lo.to_le_bytes(), v.hi.to_le_bytes()].concat().try_into().unwrap();
        let chip = FpChip::<Fr, Bn254Fq>::new(&self.range, 88, 3);
        let x = chip.load_private(self.builder.main(0), Bn254Fq::from_repr(bytes).unwrap());
        let l = x.limbs();
        [l[0].cell.map(|c| c.offset), l[1].cell.map(|c| c.offset), l[2].cell.map(|c| c.offset)]
    }

    /// Relies on `FpChip::<Fr, secp256k1::Fp>::new(range, 88, 3)` and its
    /// `load_private`: the element `v` as three new limb cells, its
    /// base-`2^88` digits, least significant first.
    #[verifier::external_body]
    fn load_secp256k1_fp(&mut self, v: HiLo) -> (r: [Option<usize>; 3])
        requires
            v.value() < ForeignField::Secp256k1Fp.modulus().value(),
            usable_lookup_bits(lookup_bits(*old(self))),
        ensures
            loads_digits(*old(self), *final(self), r, v),
    {
        let bytes: [u8; 32] = [v.lo.to_le_bytes(), v.hi.to_le_bytes()].concat().try_into().unwrap();
        let chip = FpChip::<Fr, Secp256k1Fp>::new(&self.range, 88, 3);
        let x = chip.load_private(self.builder.main(0), Secp256k1Fp::from_repr(bytes).unwrap());
        let l = x.limbs();
        [l[0].cell.map(|c| c.offset), l[1].cell.map(|c| c.offset), l[2].cell.map(|c| c.offset)]
    }

    /// Relies on `FpChip::<Fr, secp256k1::Fq>::new(range, 88, 3)` and its
    /// `load_private`: the element `v` as three new limb cells, its
    /// base-`2^88` digits, least significant first.
    #[verifier::external_body]
    fn load_secp256k1_fq(&mut self, v: HiLo) -> (r: [Option<usize>; 3])
        requires
            v.value() < ForeignField::Secp256k1Fq.modulus().value(),
            usable_lookup_bits(lookup_bits(*old(self))),
        ensures
            loads_digits(*old(self), *final(self), r, v),
    {
        let bytes: [u8; 32] = [v.lo.to_le_bytes(), v.hi.to_le_bytes()].concat().try_into().unwrap();
        let chip = FpChip::<Fr, Secp256k1Fq>::new(&self.range, 88, 3);
        let x = chip.load_private(self.builder.main(0), Secp256k1Fq::from_repr(bytes).unwrap());
        let l = x.limbs();
        [l[0].cell.map(|c| c.offset), l[1].cell.map(|c| c.offset), l[2].cell.map(|c| c.offset)]
    }

    /// Loads `v` as an element of `field`: three new limb cells of 88 bits,
    /// the base-`2^88` digits of `v`, least significant first.
    pub(crate) fn load_foreign(&mut self, field: ForeignField, v: HiLo) -> (r: [Option<usize>; 3])
        requires
            v.value() < field.modulus().value(),
            usable_lookup_bits(lookup_bits(*old(self))),
        ensures
            loads_digits(*old(self), *final(self), r, v),
    {
        match field {
            ForeignField::Bn254Fq => self.load_bn254_fq(v),
            ForeignField::Secp256k1Fp => self.load_secp256k1_fp(v),
            ForeignField::Secp256k1Fq => self.load_secp256k1_fq(v),
        }
    }
}

/// The native modulus exceeds `2^129`, so sums of two 128-bit values are
/// never reduced.
pub proof fn lemma_native_modulus_large()
    ensures
        2 * pow2(128) < native_modulus(),
{
    let b = pow2(128);
    crate::codec::lemma_pow2_le_128(0);
    assert(0x30644e72e131a029b85045b68181585d * b >= 2 * b) by (nonlinear_arith)
        requires
            b > 0,
    ;
}

} // verus!

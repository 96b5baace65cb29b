use halo2_base::halo2_proofs::dev::MockProver;
use halo2_base::halo2_proofs::halo2curves::bn256::{Fq as Bn254Fq, Fr};
use halo2_base::halo2_proofs::halo2curves::secp256k1::{Fp as Secp256k1Fp, Fq as Secp256k1Fq};
use halo2_base::utils::modulus;
use num_bigint::BigUint;
use halo2_wasm::codec::{decompose_hi_lo_to_limbs, HiLo, LIMB_BITS};
use halo2_wasm::error::Error;
use halo2_wasm::store::{native_field_modulus, ForeignField, WitnessStore};

const K: usize = 11;
const LOOKUP_BITS: usize = 8;
const P_HI: u128 = 0x30644e72e131a029b85045b68181585d;
const P_LO: u128 = 0x2833e84879b9709143e1f593f0000001;
const FQ_HI: u128 = 0x30644e72e131a029b85045b68181585d;
const FQ_LO: u128 = 0x97816a916871ca8d3c208c16d87cfd47;

fn small(x: u128) -> HiLo {
    HiLo { hi: 0, lo: x }
}

fn commit(store: &mut WitnessStore, x: u128) -> usize {
    store.commit_witness(small(x)).unwrap().position
}

fn satisfied(store: &mut WitnessStore) -> bool {
    store.builder.set_k(K);
    store.builder.calculate_params(Some(9));
    MockProver::run(K as u32, &store.builder, vec![]).unwrap().verify().is_ok()
}

fn value_at(store: &WitnessStore, h: usize) -> HiLo {
    store.resolve(h).unwrap().value
}

#[test]
fn modulus_boundary_in_the_circuit() {
    let cases = [(P_HI - 1, 0, true), (P_HI, P_LO - 1, true), (P_HI, P_LO, false)];
    for (hi, lo, below) in cases {
        let mut store = WitnessStore::new(LOOKUP_BITS);
        let h = commit(&mut store, hi);
        let l = commit(&mut store, lo);
        let check = store.assert_below_modulus(h, l, &HiLo { hi: P_HI, lo: P_LO }).unwrap();
        assert_eq!(value_at(&store, check), small(below as u128));
        assert_eq!(satisfied(&mut store), below);
    }
}

#[test]
fn loads_a_small_pair_as_a_foreign_element() {
    let mut store = WitnessStore::new(LOOKUP_BITS);
    let h = commit(&mut store, 0);
    let l = commit(&mut store, 42);
    let limbs = store.hi_lo_to_field_element(ForeignField::Bn254Fq, h, l).unwrap();
    let values: Vec<HiLo> = limbs.iter().map(|x| value_at(&store, *x)).collect();
    assert_eq!(values, vec![small(42), small(0), small(0)]);
    assert!(satisfied(&mut store));
}

#[test]
fn loads_large_pairs_in_each_field() {
    let cases = [
        (ForeignField::Bn254Fq, FQ_HI, FQ_LO - 1),
        (ForeignField::Secp256k1Fp, u128::MAX, 0xfffffffffffffffffffffffefffffc2e),
        (ForeignField::Secp256k1Fq, 0xfffffffffffffffffffffffffffffffe, 12345),
    ];
    for (field, hi, lo) in cases {
        let mut store = WitnessStore::new(LOOKUP_BITS);
        let h = commit(&mut store, hi);
        let l = commit(&mut store, lo);
        let limbs = store.hi_lo_to_field_element(field, h, l).unwrap();
        let expected = decompose_hi_lo_to_limbs(hi, lo, LIMB_BITS);
        let values: Vec<u128> = limbs.iter().map(|x| value_at(&store, *x).lo).collect();
        assert_eq!(values, vec![expected.limb0, expected.limb1, expected.limb2]);
        assert!(satisfied(&mut store));
    }
}

#[test]
fn rejects_a_pair_at_the_modulus_before_committing() {
    let mut store = WitnessStore::new(LOOKUP_BITS);
    let h = commit(&mut store, FQ_HI);
    let l = commit(&mut store, FQ_LO);
    let before = store.committed();
    assert_eq!(store.hi_lo_to_field_element(ForeignField::Bn254Fq, h, l), Err(Error::ModulusViolation));
    assert_eq!(store.committed(), before);
}

#[test]
fn rejects_a_half_wider_than_128_bits() {
    let mut store = WitnessStore::new(LOOKUP_BITS);
    let h = store.commit_witness(HiLo { hi: 1, lo: 0 }).unwrap().position;
    let l = commit(&mut store, 3);
    let before = store.committed();
    assert_eq!(
        store.hi_lo_to_field_element(ForeignField::Bn254Fq, h, l),
        Err(Error::MalformedBigInteger)
    );
    assert_eq!(store.committed(), before);
    assert_eq!(
        store.hi_lo_to_field_element(ForeignField::Bn254Fq, h, before),
        Err(Error::OutOfRange)
    );
}

#[test]
fn mismatched_limbs_are_unsatisfiable() {
    let mut store = WitnessStore::new(LOOKUP_BITS);
    let h = commit(&mut store, 0);
    let l = commit(&mut store, 42);
    let wrong = [commit(&mut store, 43), commit(&mut store, 0), commit(&mut store, 0)];
    let computed = store.constrain_limbs_equality(h, l, wrong, LIMB_BITS as u32).unwrap();
    assert_eq!(value_at(&store, computed[0]), small(42));
    assert!(!satisfied(&mut store));
}

#[test]
fn limbs_convert_back_to_the_pair() {
    let (hi, lo) = (0x0123456789abcdef0123456789abcdefu128, 0xfedcba9876543210fedcba9876543210u128);
    let t = decompose_hi_lo_to_limbs(hi, lo, LIMB_BITS);
    let mut store = WitnessStore::new(LOOKUP_BITS);
    let limbs = [commit(&mut store, t.limb0), commit(&mut store, t.limb1), commit(&mut store, t.limb2)];
    let (h, l) = store.convert_limbs_to_hi_lo(limbs, LIMB_BITS).unwrap();
    assert_eq!(value_at(&store, h), small(hi));
    assert_eq!(value_at(&store, l), small(lo));
    assert!(satisfied(&mut store));
}

#[test]
fn splits_a_cell_into_halves_and_joins_them() {
    let v = HiLo { hi: 5, lo: 7 };
    let mut store = WitnessStore::new(LOOKUP_BITS);
    let a = store.commit_witness(v).unwrap().position;
    let (h, l) = store.to_hi_lo(a).unwrap();
    assert_eq!(value_at(&store, h), small(5));
    assert_eq!(value_at(&store, l), small(7));
    let joined = store.from_hi_lo(h, l).unwrap();
    assert_eq!(value_at(&store, joined), v);
    assert_eq!(store.to_hi_lo(store.committed()), Err(Error::OutOfRange));
    assert!(satisfied(&mut store));
}

fn big(v: HiLo) -> BigUint {
    (BigUint::from(v.hi) << 128u32) + BigUint::from(v.lo)
}

#[test]
fn moduli_match_the_curve_library() {
    assert_eq!(big(native_field_modulus()), modulus::<Fr>());
    assert_eq!(big(ForeignField::Bn254Fq.field_modulus()), modulus::<Bn254Fq>());
    assert_eq!(big(ForeignField::Secp256k1Fp.field_modulus()), modulus::<Secp256k1Fp>());
    assert_eq!(big(ForeignField::Secp256k1Fq.field_modulus()), modulus::<Secp256k1Fq>());
}

#[test]
fn a_low_half_of_128_bits_or_more_is_unsatisfiable() {
    let mut store = WitnessStore::new(LOOKUP_BITS);
    let h = commit(&mut store, 0);
    let l = store.commit_witness(HiLo { hi: 1, lo: 0 }).unwrap().position;
    let joined = store.check_hi_lo(h, l).unwrap();
    assert!(joined >= 2);
    assert!(!satisfied(&mut store));
}

#[test]
fn each_call_commits_new_cells() {
    let mut store = WitnessStore::new(LOOKUP_BITS);
    let h = commit(&mut store, 3);
    let l = commit(&mut store, 4);
    let first = store.check_hi_lo(h, l).unwrap();
    let second = store.check_hi_lo(h, l).unwrap();
    assert_ne!(first, second);
    assert_eq!(value_at(&store, first), value_at(&store, second));
    assert!(satisfied(&mut store));
}

#[test]
fn halves_land_right_after_the_last_cell() {
    let mut store = WitnessStore::new(LOOKUP_BITS);
    let a = store.commit_witness(HiLo { hi: 9, lo: 11 }).unwrap().position;
    let n = store.committed();
    let (h, l) = store.to_hi_lo(a).unwrap();
    assert_eq!((l, h), (n, n + 1));
}

#[test]
fn widest_lookup_table_is_accepted() {
    let mut store = WitnessStore::new(63);
    let w = store.commit_witness(small(5)).unwrap();
    assert_eq!(store.resolve(w.position), Ok(w));
}

#[test]
fn every_committed_cell_can_be_an_operand() {
    let mut store = WitnessStore::new(LOOKUP_BITS);
    let h = commit(&mut store, 5);
    let l = commit(&mut store, 7);
    store.from_hi_lo(h, l).unwrap();
    let n = store.committed();
    for k in 0..n {
        assert!(store.from_hi_lo(k, l).is_ok());
        assert!(store.to_hi_lo(k).is_ok());
    }
}

#[test]
fn limbs_of_128_bits() {
    let (hi, lo) = (0x0123456789abcdef0123456789abcdefu128, 0xfedcba9876543210fedcba9876543210u128);
    let t = decompose_hi_lo_to_limbs(hi, lo, 128);
    assert_eq!((t.limb0, t.limb1, t.limb2), (lo, hi, 0));
    let mut store = WitnessStore::new(LOOKUP_BITS);
    let h = commit(&mut store, hi);
    let l = commit(&mut store, lo);
    let limbs = [commit(&mut store, t.limb0), commit(&mut store, t.limb1), commit(&mut store, t.limb2)];
    let computed = store.constrain_limbs_equality(h, l, limbs, 128).unwrap();
    let values: Vec<u128> = computed.iter().map(|x| value_at(&store, *x).lo).collect();
    assert_eq!(values, vec![lo, hi, 0]);
    let (h2, l2) = store.convert_limbs_to_hi_lo(limbs, 128).unwrap();
    assert_eq!((value_at(&store, h2), value_at(&store, l2)), (small(hi), small(lo)));
    assert!(satisfied(&mut store));
}

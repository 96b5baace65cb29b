use halo2_wasm::codec::{
    below_modulus, check_below_modulus, compose_limbs_to_hi_lo, decompose_hi_lo_to_limbs, HiLo,
    LimbTriple, LIMB_BITS,
};
use halo2_wasm::error::Error;
use num_bigint::BigUint;

const P_HI: u128 = 0x30644e72e131a029b85045b68181585d;
const P_LO: u128 = 0x2833e84879b9709143e1f593f0000001;

fn pair_value(hi: u128, lo: u128) -> BigUint {
    (BigUint::from(hi) << 128u32) + BigUint::from(lo)
}

fn limbs_value(t: &LimbTriple, bits: u32) -> BigUint {
    BigUint::from(t.limb0)
        + (BigUint::from(t.limb1) << bits)
        + (BigUint::from(t.limb2) << (2 * bits))
}

#[test]
fn decompose_small_value() {
    let t = decompose_hi_lo_to_limbs(0, 42, LIMB_BITS);
    assert_eq!(t, LimbTriple { limb0: 42, limb1: 0, limb2: 0 });
}

#[test]
fn decompose_two_to_the_128() {
    let t = decompose_hi_lo_to_limbs(1, 0, LIMB_BITS);
    assert_eq!(t, LimbTriple { limb0: 0, limb1: 1u128 << 40, limb2: 0 });
}

#[test]
fn decompose_largest_pair() {
    let t = decompose_hi_lo_to_limbs(u128::MAX, u128::MAX, LIMB_BITS);
    assert_eq!(
        t,
        LimbTriple { limb0: (1u128 << 88) - 1, limb1: (1u128 << 88) - 1, limb2: (1u128 << 80) - 1 }
    );
}

#[test]
fn round_trip_through_limbs() {
    let cases = [
        (0u128, 0u128),
        (0, 42),
        (1, 0),
        (P_HI, P_LO),
        (u128::MAX, u128::MAX),
        (0x0123456789abcdef0123456789abcdef, 0xfedcba9876543210fedcba9876543210),
    ];
    for (hi, lo) in cases {
        for bits in [LIMB_BITS, 65, 100, 127, 128] {
            let t = decompose_hi_lo_to_limbs(hi, lo, bits);
            assert_eq!(compose_limbs_to_hi_lo(&t, bits), Ok(HiLo { hi, lo }));
        }
    }
}

#[test]
fn limbs_carry_the_pair_value() {
    let cases = [(0u128, 42u128), (P_HI, P_LO - 1), (u128::MAX, 1), (7, u128::MAX)];
    for (hi, lo) in cases {
        let t = decompose_hi_lo_to_limbs(hi, lo, LIMB_BITS);
        assert_eq!(limbs_value(&t, 88), pair_value(hi, lo));
        assert!(t.limb0 < 1u128 << 88 && t.limb1 < 1u128 << 88 && t.limb2 < 1u128 << 80);
    }
}

#[test]
fn compose_known_value() {
    let t = LimbTriple { limb0: 5, limb1: (1u128 << 40) + 3, limb2: 2 };
    let expected_lo = (3u128 << 88) + 5;
    let expected_hi = (2u128 << 48) + 1;
    assert_eq!(compose_limbs_to_hi_lo(&t, LIMB_BITS), Ok(HiLo { hi: expected_hi, lo: expected_lo }));
}

#[test]
fn compose_rejects_oversized_limbs() {
    let wide0 = LimbTriple { limb0: 1u128 << 88, limb1: 0, limb2: 0 };
    let wide1 = LimbTriple { limb0: 0, limb1: 1u128 << 88, limb2: 0 };
    let wide2 = LimbTriple { limb0: 0, limb1: 0, limb2: 1u128 << 80 };
    for t in [wide0, wide1, wide2] {
        assert_eq!(compose_limbs_to_hi_lo(&t, LIMB_BITS), Err(Error::RangeViolation));
    }
    let top = LimbTriple { limb0: 0, limb1: 0, limb2: (1u128 << 80) - 1 };
    assert!(compose_limbs_to_hi_lo(&top, LIMB_BITS).is_ok());
}

#[test]
fn boundary_of_the_scalar_modulus() {
    let p = HiLo { hi: P_HI, lo: P_LO };
    assert!(below_modulus(&HiLo { hi: P_HI - 1, lo: 0 }, &p));
    assert!(!below_modulus(&HiLo { hi: P_HI, lo: P_LO }, &p));
    assert!(below_modulus(&HiLo { hi: P_HI, lo: P_LO - 1 }, &p));
    assert!(!below_modulus(&HiLo { hi: P_HI + 1, lo: 0 }, &p));
    assert!(below_modulus(&HiLo { hi: P_HI - 1, lo: u128::MAX }, &p));
}

#[test]
fn host_check_rejects_values_at_or_above_modulus() {
    let p = HiLo { hi: P_HI, lo: P_LO };
    assert_eq!(check_below_modulus(p, &p), Err(Error::ModulusViolation));
    assert_eq!(
        check_below_modulus(HiLo { hi: u128::MAX, lo: 0 }, &p),
        Err(Error::ModulusViolation)
    );
    let ok = HiLo { hi: 0, lo: 42 };
    assert_eq!(check_below_modulus(ok, &p), Ok(ok));
}

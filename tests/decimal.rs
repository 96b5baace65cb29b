use halo2_wasm::codec::HiLo;
use halo2_wasm::decimal::{parse_decimal, parse_usize};
use halo2_wasm::error::Error;
use halo2_wasm::store::WitnessStore;

const TWO_256_MINUS_1: &str =
    "115792089237316195423570985008687907853269984665640564039457584007913129639935";
const TWO_256: &str =
    "115792089237316195423570985008687907853269984665640564039457584007913129639936";
const SCALAR_MODULUS: &str =
    "21888242871839275222246405745257275088548364400416034343698204186575808495617";
const SCALAR_MODULUS_MINUS_1: &str =
    "21888242871839275222246405745257275088548364400416034343698204186575808495616";

#[test]
fn parses_small_numbers() {
    assert_eq!(parse_decimal("0"), Ok(HiLo { hi: 0, lo: 0 }));
    assert_eq!(parse_decimal("42"), Ok(HiLo { hi: 0, lo: 42 }));
    assert_eq!(parse_decimal("00042"), Ok(HiLo { hi: 0, lo: 42 }));
}

#[test]
fn parses_across_the_halves() {
    assert_eq!(
        parse_decimal("340282366920938463463374607431768211456"),
        Ok(HiLo { hi: 1, lo: 0 })
    );
    assert_eq!(
        parse_decimal("340282366920938463463374607431768211455"),
        Ok(HiLo { hi: 0, lo: u128::MAX })
    );
    assert_eq!(parse_decimal(TWO_256_MINUS_1), Ok(HiLo { hi: u128::MAX, lo: u128::MAX }));
    assert_eq!(
        parse_decimal(SCALAR_MODULUS),
        Ok(HiLo { hi: 0x30644e72e131a029b85045b68181585d, lo: 0x2833e84879b9709143e1f593f0000001 })
    );
}

#[test]
fn rejects_what_is_not_a_256_bit_decimal() {
    for s in ["", "12a", "-1", "+5", " 7", "4 2", "0x10", "\u{663}", TWO_256] {
        assert_eq!(parse_decimal(s), Err(Error::MalformedBigInteger), "{s}");
    }
}

#[test]
fn parses_widths() {
    assert_eq!(parse_usize("128"), Ok(128));
    assert_eq!(parse_usize("0"), Ok(0));
    assert_eq!(parse_usize(&usize::MAX.to_string()), Ok(usize::MAX));
    let too_big = (usize::MAX as u128 + 1).to_string();
    assert_eq!(parse_usize(&too_big), Err(Error::MalformedBigInteger));
    assert_eq!(parse_usize("88bits"), Err(Error::MalformedBigInteger));
}

#[test]
fn commits_decimal_values() {
    let mut store = WitnessStore::new(8);
    let w = store.commit_witness_decimal("10").unwrap();
    assert_eq!((w.position, w.value), (0, HiLo { hi: 0, lo: 10 }));
    let c = store.commit_constant_decimal(SCALAR_MODULUS_MINUS_1).unwrap();
    assert_eq!(c.position, 1);
    assert_eq!(store.resolve(1), Ok(c));
    assert_eq!(store.commit_witness_decimal(SCALAR_MODULUS), Err(Error::ModulusViolation));
    assert_eq!(store.commit_constant_decimal("ten"), Err(Error::MalformedBigInteger));
    assert_eq!(store.commit_witness_decimal(TWO_256), Err(Error::MalformedBigInteger));
    assert_eq!(store.committed(), 2);
}

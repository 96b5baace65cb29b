use halo2_wasm::arena::Witness;
use halo2_wasm::codec::HiLo;
use halo2_wasm::error::Error;
use halo2_wasm::store::WitnessStore;

const P_HI: u128 = 0x30644e72e131a029b85045b68181585d;
const P_LO: u128 = 0x2833e84879b9709143e1f593f0000001;

fn small(x: u128) -> HiLo {
    HiLo { hi: 0, lo: x }
}

#[test]
fn handles_are_stable() {
    let mut store = WitnessStore::new(8);
    let n = 5usize;
    for i in 0..n {
        let w = store.commit_witness(small(100 + i as u128)).unwrap();
        assert_eq!(w.position, i);
    }
    assert_eq!(store.committed(), n);
    for i in 0..n {
        let w = store.resolve(i).unwrap();
        assert_eq!(w.value, small(100 + i as u128));
        assert_eq!(store.externalize(&w), Ok(i));
    }
}

#[test]
fn resolve_past_the_end_is_out_of_range() {
    let mut store = WitnessStore::new(8);
    assert_eq!(store.resolve(0), Err(Error::OutOfRange));
    for i in 0..3u128 {
        store.commit_witness(small(i)).unwrap();
    }
    assert_eq!(store.resolve(3), Err(Error::OutOfRange));
    assert!(store.resolve(2).is_ok());
}

#[test]
fn resolve_many_keeps_order_and_fails_fast() {
    let mut store = WitnessStore::new(8);
    for i in 0..4u128 {
        store.commit_witness(small(10 * i)).unwrap();
    }
    let got = store.resolve_many(&vec![3, 0, 2]).unwrap();
    let values: Vec<u128> = got.iter().map(|w| w.value.lo).collect();
    assert_eq!(values, vec![30, 0, 20]);
    assert_eq!(store.resolve_many(&vec![1, 4, 0]), Err(Error::OutOfRange));
    assert_eq!(store.resolve_many(&vec![]), Ok(vec![]));
}

#[test]
fn externalize_rejects_values_not_in_the_store() {
    let mut store = WitnessStore::new(8);
    store.commit_witness(small(7)).unwrap();
    let wrong_value = Witness { position: 0, value: small(8) };
    assert_eq!(store.externalize(&wrong_value), Err(Error::Uncommitted));
    let past_end = Witness { position: 1, value: small(7) };
    assert_eq!(store.externalize(&past_end), Err(Error::Uncommitted));
}

#[test]
fn externalize_many_keeps_order() {
    let mut store = WitnessStore::new(8);
    let a = store.commit_witness(small(1)).unwrap();
    let b = store.commit_constant(small(2)).unwrap();
    assert_eq!(store.externalize_many(&vec![b, a, b]), Ok(vec![1, 0, 1]));
    let bad = Witness { position: 5, value: small(1) };
    assert_eq!(store.externalize_many(&vec![a, bad]), Err(Error::Uncommitted));
}

#[test]
fn commit_rejects_values_outside_the_field() {
    let mut store = WitnessStore::new(8);
    assert_eq!(store.commit_witness(HiLo { hi: P_HI, lo: P_LO }), Err(Error::ModulusViolation));
    assert_eq!(store.commit_constant(HiLo { hi: u128::MAX, lo: 0 }), Err(Error::ModulusViolation));
    assert_eq!(store.committed(), 0);
    let top = HiLo { hi: P_HI, lo: P_LO - 1 };
    let w = store.commit_witness(top).unwrap();
    assert_eq!(store.resolve(0), Ok(w));
    assert_eq!(w.value, top);
}

use matcher::config::ExecutorConfig;
use matcher::u256::{price_level_key, U256};

#[test]
fn arithmetic_carries_between_limbs() {
    let a = U256 { hi: 0, lo: u128::MAX };
    let one = U256::from(1);
    assert_eq!(a.add(&one), U256 { hi: 1, lo: 0 });
    assert_eq!(U256 { hi: 1, lo: 0 }.sub(&one), a);
    let max = U256 { hi: u128::MAX, lo: u128::MAX };
    assert_eq!(max.saturating_add(&one), max);
    assert_eq!(one.saturating_sub(&a), U256::zero());
    assert_eq!(U256::from(7).saturating_sub(&U256::from(3)), U256::from(4));
    assert_eq!(U256::from(7).min(&U256::from(3)), U256::from(3));
}

#[test]
fn ordering_compares_high_limb_first() {
    let small = U256 { hi: 0, lo: u128::MAX };
    let big = U256 { hi: 1, lo: 0 };
    assert!(small.lt(&big));
    assert!(!big.lt(&small));
    assert!(big.le(&big));
    assert!(U256::zero().is_zero());
    assert!(!big.is_zero());
    assert_eq!(U256::from_u128(5), U256::from(5));
}

#[test]
fn bid_keys_carry_the_side_bit() {
    let p = U256::from(100);
    assert_eq!(price_level_key(p, true), (0, 100));
    assert_eq!(price_level_key(p, false), (1u128 << 127, 100));
    assert_eq!(p.key(), (0, 100));
}

#[test]
fn gas_price_converts_to_wei() {
    let e = ExecutorConfig { private_key: String::new(), gas_price_gwei: 3, gas_limit: 1 };
    assert_eq!(e.gas_price_wei(), Some(3_000_000_000));
    let huge = ExecutorConfig { private_key: String::new(), gas_price_gwei: u64::MAX, gas_limit: 1 };
    assert_eq!(huge.gas_price_wei(), None);
}

use register_machines::natural::Natural;

fn num(v: u128) -> Natural {
    Natural::from_u128(v)
}

#[test]
fn word_round_trip() {
    for v in 0u128..300 {
        assert_eq!(num(v).to_u128(), v);
    }
    assert_eq!(num(u128::MAX).to_u128(), u128::MAX);
    assert_eq!(Natural::from_usize(usize::MAX).to_usize(), usize::MAX);
}

#[test]
fn zero_properties() {
    assert!(Natural::zero().is_zero());
    assert!(!Natural::zero().is_odd());
    assert_eq!(Natural::zero(), num(0));
    assert!(!num(1).is_zero());
}

#[test]
fn successor_and_predecessor() {
    for v in 0u128..300 {
        assert_eq!(num(v).succ(), num(v + 1));
        assert_eq!(num(v + 1).pred(), num(v));
    }
    // carries across a power of two
    assert_eq!(num(255).succ(), num(256));
    assert_eq!(num(256).pred(), num(255));
    let big = num(1).shl(200);
    assert_eq!(big.pred().succ(), big);
}

#[test]
fn doubling_and_halving() {
    for v in 0u128..100 {
        assert_eq!(num(v).double(), num(2 * v));
        assert_eq!(num(v).double_plus_one(), num(2 * v + 1));
        assert_eq!(num(v).half(), num(v / 2));
        assert_eq!(num(v).is_odd(), v % 2 == 1);
    }
}

#[test]
fn shifts_are_powers_of_two() {
    assert_eq!(num(1).shl(10), num(1024));
    assert_eq!(num(20483).shl(46), num(20483 * (1u128 << 46)));
    assert_eq!(num(1024).shr(10), num(1));
    assert_eq!(num(1025).shr(10), num(1));
    assert_eq!(num(7).shr(10), num(0));
    let big = num(833).shl(216);
    assert_eq!(big.shr(216), num(833));
}

#[test]
fn trailing_zeros_is_the_two_adic_valuation() {
    assert_eq!(num(1).trailing_zeros(), 0);
    assert_eq!(num(20483).trailing_zeros(), 0);
    assert_eq!(num(96).trailing_zeros(), 5);
    assert_eq!(num(833).shl(216).trailing_zeros(), 216);
}

#[test]
fn duplicate_preserves_value() {
    let a = num(20483).shl(46);
    let b = a.duplicate();
    assert_eq!(a, b);
}

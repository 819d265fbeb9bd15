use algolib::modint::{mint, ModInt};

#[test]
fn modint_test() {
    const M: u32 = 998244353;
    let x = mint::<M>(123);
    assert_eq!(x.mul(x.inv()), mint(1));
}

#[test]
fn modint_arithmetic() {
    const M: u32 = 1_000_000_007;
    let a: ModInt<M> = mint(1_000_000_006);
    let b: ModInt<M> = mint(5);
    assert_eq!(a.add(b), mint(4));
    assert_eq!(b.sub(a), mint(6));
    assert_eq!(a.mul(b).get(), (5u64 * 1_000_000_006 % M as u64) as u32);
    assert_eq!(b.neg(), mint(1_000_000_002));
    assert_eq!(a.div(b).mul(b), a);
    assert_eq!(mint::<M>(12_000_000_084).get(), (12_000_000_084u64 % M as u64) as u32);
    assert_eq!(b.normalize(), b);
    assert_eq!(a.get_negative(), -1);
}

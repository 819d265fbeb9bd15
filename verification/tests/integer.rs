use algolib::integer::{crt, ext_gcd, gcd, lcm};
use algolib::simple_rng::Rng;

#[test]
fn ext_gcd_random() {
    let mut rng = Rng::new(1);
    for _ in 0..100 {
        let x = rng.range(-10000i64, 10000);
        let y = rng.range(-10000i64, 10000);
        let (g, a, b) = ext_gcd(x, y);
        assert_eq!(a * x + b * y, g, "x={x}, y={y}, a={a}, b={b}");
    }
}

#[test]
fn crt_random() {
    let mut rng = Rng::new(1);
    for _ in 0..1000 {
        let a = rng.range(-10000i64, 10000);
        let m = rng.range(1i64, 10000);
        let b = rng.range(-10000i64, 10000);
        let n = rng.range(1i64, 10000);
        let res = crt(a, m, b, n);
        if let Some((c, k)) = res {
            assert_eq!(c % m, a.rem_euclid(m), "a={a}, m={m}, b={b}, n={n}");
            assert_eq!(c % n, b.rem_euclid(n), "a={a}, m={m}, b={b}, n={n}");
            assert_eq!(k, lcm(m, n), "a={a}, m={m}, b={b}, n={n}");
        } else {
            assert_ne!(gcd(m, n), 1);
        }
    }
}

#[test]
fn gcd_lcm_values() {
    assert_eq!(gcd(12, 18), 6);
    assert_eq!(gcd(-12, 18), 6);
    assert_eq!(gcd(0, 7), 7);
    assert_eq!(gcd(7, 0), 7);
    assert_eq!(lcm(4, 6), 12);
    assert_eq!(lcm(0, 5), 0);
    assert_eq!(lcm(-4, 6), 12);
}

#[test]
fn crt_conflict() {
    assert_eq!(crt(0, 4, 1, 6), None);
    let (c, k) = crt(1, 4, 5, 6).unwrap();
    assert_eq!(k, 12);
    assert_eq!(c % 4, 1);
    assert_eq!(c % 6, 5);
}

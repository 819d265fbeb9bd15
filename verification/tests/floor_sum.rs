use algolib::floor_sum::floor_sum;
use algolib::simple_rng::Rng;

#[test]
fn floor_sum_random() {
    let mut rng = Rng::new(1);
    for _ in 0..100 {
        let n = rng.range(0i64, 100);
        let m = rng.range(1i64, 10000);
        let a = rng.range(-10000i64, 10000);
        let b = rng.range(-10000i64, 10000);

        let mut naive = 0;
        for i in 0..n {
            fn div_floor(x: i64, y: i64) -> i64 {
                x / y - (x % y < 0) as i64
            }
            naive += div_floor(a * i + b, m);
        }

        assert_eq!(floor_sum(n, m, a, b), naive);
    }
}

#[test]
fn floor_sum_negative_modulus() {
    assert_eq!(floor_sum(5, -3, 2, 1), floor_sum(5, 3, -2, -1));
    assert_eq!(floor_sum(0, 7, 3, 2), 0);
}

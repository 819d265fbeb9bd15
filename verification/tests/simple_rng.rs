use algolib::simple_rng::Rng;

#[test]
fn range() {
    fn case<T: Ord + Copy>(mut f: impl FnMut() -> T, l: T, r: T) {
        let mut fl = false;
        let mut fr = false;
        for _ in 0..100 {
            let x = f();
            fl |= x == l;
            fr |= x == r;
            assert!(l <= x);
            assert!(x <= r);
        }
        assert!(fl);
        assert!(fr);
    }

    let mut rng = Rng::new(1);

    case(|| rng.range(-5i32, 5), -5, 5);
    case(|| rng.range(-5i32, 4), -5, 4);
    case(|| rng.range(i32::MIN, i32::MIN + 5), i32::MIN, i32::MIN + 5);
    case(|| rng.range(i32::MAX - 5, i32::MAX), i32::MAX - 5, i32::MAX);
    case(|| rng.range(0u32, 5), 0, 5);
    case(|| rng.range(u32::MAX - 5, u32::MAX), u32::MAX - 5, u32::MAX);
}

#[test]
fn shuffle_permutes() {
    let mut rng = Rng::new(99);
    let mut v: Vec<usize> = (0..50).collect();
    rng.shuffle(&mut v);
    assert_eq!(v.len(), 50);
    let mut sorted = v.clone();
    sorted.sort();
    assert_eq!(sorted, (0..50).collect::<Vec<usize>>());
}

#[test]
fn replay_is_deterministic() {
    let mut a = Rng::new(7);
    let mut b = Rng::new(7);
    for _ in 0..32 {
        assert_eq!(a.next_u32(), b.next_u32());
    }
    assert_eq!(a.next_u64(), b.next_u64());
}

use algolib::algebra::Monoid;
use algolib::instances::Affine;
use algolib::segtree::SegTree;
use algolib::simple_rng::Rng;

#[test]
fn affine() {
    let mut rng = Rng::new(20250124);
    for n in 1..=50usize {
        for _ in 0..20 {
            let mut a: Vec<Affine> = (0..n)
                .map(|_| Affine(rng.next_u32() % 16, rng.next_u32() % 16))
                .collect();
            let mut st: SegTree<Affine> = SegTree::from_vec(a.clone());
            for _ in 0..20 {
                let l = (rng.next_u32() as usize) % (n + 1);
                let r = (rng.next_u32() as usize) % (n + 1);
                let (l, r) = if l <= r { (l, r) } else { (r, l) };

                let prod_a: Affine = a[l..r].iter().fold(Affine::id(), |acc, v| acc.op(v));
                let prod_st = st.prod(l, r);

                assert_eq!(prod_a, prod_st, "l={l}, r={r}, a={a:?}");

                let i = (rng.next_u32() as usize) % n;
                let v = Affine(rng.next_u32(), rng.next_u32());
                a[i] = v;
                st.set(i, v);
            }
        }
    }
}

#[test]
fn bisect() {
    let mut rng = Rng::new(20250125);
    for n in 1..=50usize {
        for _ in 0..20 {
            let mut a: Vec<u32> = (0..n).map(|_| rng.next_u32() % 256).collect();
            let mut st: SegTree<u32> = SegTree::from_vec(a.clone());
            for _ in 0..20 {
                let i = (rng.next_u32() as usize) % n;
                let x = rng.next_u32() % 256;
                a[i] = x;
                st.set(i, x);

                let l = (rng.next_u32() as usize) % n;
                let x = rng.next_u32() % (256 * (n - l).max(1) as u32);
                let mut r = l;
                let mut sum = 0;
                while r < n && sum + a[r] <= x {
                    sum += a[r];
                    r += 1;
                }
                let res = st.max_right(l, |sum: u32| sum <= x);
                assert_eq!(r, res.0, "a={a:?}, x={x}");
                assert_eq!(sum, res.1, "a={a:?}, x={x}");
            }
        }
    }
}

#[test]
fn plain_set_returns_previous() {
    let mut st: SegTree<u32> = SegTree::from_vec(vec![5, 6, 7]);
    assert_eq!(st.set(1, 9), 6);
    assert_eq!(st.set(1, 9), 9);
    assert_eq!(st.prod(0, 3), 21);
    assert_eq!(st.to_vec(), vec![5, 9, 7]);
}

#[test]
fn plain_prod_full_is_fold() {
    let vals = vec![3u32, 1, 4, 1, 5, 9, 2, 6];
    let st: SegTree<u32> = SegTree::from_vec(vals.clone());
    let total: u32 = vals.iter().fold(0, |acc, v| acc.wrapping_add(*v));
    assert_eq!(st.prod_all(), total);
    assert_eq!(st.prod(0, vals.len()), total);
    for l in 0..=vals.len() {
        for r in l..=vals.len() {
            let expect: u32 = vals[l..r].iter().fold(0, |acc, v| acc.wrapping_add(*v));
            assert_eq!(st.prod(l, r), expect);
        }
    }
}

#[test]
fn plain_min_left_bound() {
    let st: SegTree<u32> = SegTree::from_vec(vec![1, 2, 3, 4]);
    let res = st.min_left(4, |sum: u32| sum <= 7);
    assert_eq!(res.0, 2);
    assert_eq!(res.1, 7);
    let res = st.min_left(0, |_s: u32| true);
    assert_eq!(res.0, 0);
}

#[test]
fn plain_new_is_identity() {
    let st: SegTree<u32> = SegTree::new(5);
    assert_eq!(st.len(), 5);
    assert_eq!(st.prod_all(), 0);
    assert_eq!(st.get(3), 0);
}

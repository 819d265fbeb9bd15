use algolib::instances::{Affine, SumCount};
use algolib::lazy_segtree::LazySegTree;
use algolib::simple_rng::Rng;

#[test]
fn range_affine_range_sum() {
    let mut rng = Rng::new(20250124);
    for n in 1..=50usize {
        for _ in 0..20 {
            let mut a: Vec<u32> = (0..n).map(|_| rng.next_u32() % 64).collect();
            let m: Vec<SumCount> = a.iter().map(|v| SumCount(*v, 1)).collect();
            let mut st: LazySegTree<SumCount, Affine> = LazySegTree::from_vec(m);
            for it in 0..20 {
                if it % 5 == 0 {
                    let i = (rng.next_u32() as usize) % n;
                    let x = rng.next_u32() % 64;
                    assert_eq!(st.set(i, SumCount(x, 1)).0, a[i]);
                    a[i] = x;
                } else {
                    let l = (rng.next_u32() as usize) % (n + 1);
                    let r = (rng.next_u32() as usize) % (n + 1);
                    let (l, r) = if l <= r { (l, r) } else { (r, l) };
                    let f = Affine(rng.next_u32() % 8, rng.next_u32() % 64);
                    for i in l..r {
                        a[i] = f.0.wrapping_mul(a[i]).wrapping_add(f.1);
                    }
                    st.apply(l, r, f);
                }

                let l = (rng.next_u32() as usize) % (n + 1);
                let r = (rng.next_u32() as usize) % (n + 1);
                let (l, r) = if l <= r { (l, r) } else { (r, l) };

                let prod_a: u32 = a[l..r].iter().fold(0, |acc, v| acc.wrapping_add(*v));
                let prod_st = st.prod(l, r);

                assert_eq!(prod_a, prod_st.0, "l={l}, r={r}, a={a:?}");
            }
        }
    }
}

#[test]
fn three_records() {
    let vals: Vec<SumCount> = vec![SumCount(1, 1), SumCount(2, 1), SumCount(3, 1)];
    let mut st: LazySegTree<SumCount, Affine> = LazySegTree::from_vec(vals);
    st.apply(0, 3, Affine(2, 3));
    assert_eq!(st.prod(0, 3), SumCount(21, 3));
    let prev = st.set(1, SumCount(0, 1));
    assert_eq!(prev, SumCount(7, 1));
    assert_eq!(st.prod(0, 3), SumCount(14, 3));
}

#[test]
fn identity_tag_is_noop() {
    let vals: Vec<SumCount> = (0..9u32).map(|v| SumCount(v, 1)).collect();
    let mut st: LazySegTree<SumCount, Affine> = LazySegTree::from_vec(vals);
    let mut before = Vec::new();
    for l in 0..=9usize {
        for r in l..=9 {
            before.push(st.prod(l, r));
        }
    }
    st.apply(2, 7, Affine(1, 0));
    let mut k = 0;
    for l in 0..=9usize {
        for r in l..=9 {
            assert_eq!(st.prod(l, r), before[k]);
            k += 1;
        }
    }
}

#[test]
fn compose_direction() {
    let vals: Vec<SumCount> = (1..=6u32).map(|v| SumCount(v, 1)).collect();
    let a = Affine(3, 5);
    let b = Affine(7, 11);
    let mut st1: LazySegTree<SumCount, Affine> = LazySegTree::from_vec(vals.clone());
    st1.apply(1, 5, a);
    st1.apply(1, 5, b);
    let mut st2: LazySegTree<SumCount, Affine> = LazySegTree::from_vec(vals);
    let ba = Affine(
        b.0.wrapping_mul(a.0),
        b.0.wrapping_mul(a.1).wrapping_add(b.1),
    );
    st2.apply(1, 5, ba);
    for l in 0..=6usize {
        for r in l..=6 {
            assert_eq!(st1.prod(l, r), st2.prod(l, r));
        }
    }
}

#[test]
fn lazy_new_and_len() {
    let mut st: LazySegTree<SumCount, Affine> = LazySegTree::new(4);
    assert_eq!(st.len(), 4);
    assert_eq!(st.prod_all(), SumCount(0, 0));
    st.apply(0, 4, Affine(1, 7));
    assert_eq!(st.prod_all(), SumCount(0, 0));
}

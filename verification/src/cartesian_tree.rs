//! Cartesian tree construction over an array of keys, by the one-pass
//! monotonic stack: parents hold the smaller key, ties go to the earlier
//! index. `usize::MAX` marks an absent parent or child.

use vstd::prelude::*;

verus! {

/// A parent entry is sound for its position: absent, or an index whose key
/// is no larger, and strictly smaller unless the parent stands earlier.
pub open spec fn parent_ok(a: Seq<i64>, p: Seq<usize>, j: int) -> bool {
    p[j] == usize::MAX || (p[j] < a.len() && a[p[j] as int] <= a[j] && (p[j] < j || a[p[j] as int]
        < a[j]))
}

/// Builds the parent array of the Cartesian tree: `p[i]` is the parent of
/// `i`, or `usize::MAX` for the root. The root is the leftmost position of
/// the minimum key; every other position has a parent whose key is no
/// larger than its own, and strictly smaller whenever the parent stands
/// later (so among equal keys the earlier index is the ancestor).
pub fn cartesian_tree_up(a: &Vec<i64>) -> (p: Vec<usize>)
    ensures
        p@.len() == a@.len(),
        forall|j: int| 0 <= j < p@.len() ==> parent_ok(a@, p@, j),
        a@.len() >= 1 ==> exists|r: int|
            0 <= r < p@.len() && #[trigger] p@[r] == usize::MAX && (forall|j: int|
                0 <= j < a@.len() ==> a@[r] <= #[trigger] a@[j]) && (forall|j: int|
                0 <= j < r ==> a@[r] < #[trigger] a@[j]),
        forall|j: int, k: int|
            0 <= j < p@.len() && 0 <= k < p@.len() && #[trigger] p@[j] == usize::MAX
                && #[trigger] p@[k] == usize::MAX ==> j == k,
{
    let n = a.len();
    let mut p: Vec<usize> = Vec::new();
    let mut t: usize = 0;
    while t < n
        invariant
            t <= n,
            p@.len() == t,
            forall|i: int| 0 <= i < t ==> #[trigger] p@[i] == usize::MAX,
        decreases n - t,
    {
        p.push(usize::MAX);
        t += 1;
    }
    let mut stk: Vec<usize> = Vec::new();
    let mut i: usize = 0;
    while i < n
        invariant
            i <= n,
            a@.len() == n,
            p@.len() == n,
            i >= 1 ==> stk@.len() >= 1,
            forall|s: int| 0 <= s < stk@.len() ==> #[trigger] stk@[s] < i,
            forall|s1: int, s2: int|
                0 <= s1 < s2 < stk@.len() ==> #[trigger] stk@[s1] < #[trigger] stk@[s2],
            forall|s1: int, s2: int|
                0 <= s1 < s2 < stk@.len() ==> a@[(#[trigger] stk@[s1]) as int] <= a@[(#[trigger] stk@[s2]) as int],
            stk@.len() >= 1 ==> forall|j: int| 0 <= j < i ==> a@[stk@[0] as int] <= #[trigger] a@[j],
            stk@.len() >= 1 ==> forall|j: int|
                0 <= j < stk@[0] ==> a@[stk@[0] as int] < #[trigger] a@[j],
            forall|j: int| 0 <= j < i ==> (#[trigger] p@[j] == usize::MAX <==> stk@.contains(j as usize)),
            forall|j: int| i <= j < n ==> #[trigger] p@[j] == usize::MAX,
            forall|j: int| 0 <= j < n ==> parent_ok(a@, p@, j),
        decreases n - i,
    {
        let mut child: usize = usize::MAX;
        while stk.len() > 0 && a[stk[stk.len() - 1]] > a[i]
            invariant
                i < n,
                a@.len() == n,
                p@.len() == n,
                child < i || child == usize::MAX,
                child != usize::MAX ==> a@[child as int] > a@[i as int],
                child == usize::MAX && i >= 1 ==> stk@.len() >= 1,
                forall|s: int| 0 <= s < stk@.len() ==> #[trigger] stk@[s] < i,
                forall|s1: int, s2: int|
                    0 <= s1 < s2 < stk@.len() ==> #[trigger] stk@[s1] < #[trigger] stk@[s2],
                forall|s1: int, s2: int|
                    0 <= s1 < s2 < stk@.len() ==> a@[(#[trigger] stk@[s1]) as int] <= a@[(#[trigger] stk@[s2]) as int],
                stk@.len() >= 1 ==> forall|j: int|
                    0 <= j < i ==> a@[stk@[0] as int] <= #[trigger] a@[j],
                stk@.len() >= 1 ==> forall|j: int|
                    0 <= j < stk@[0] ==> a@[stk@[0] as int] < #[trigger] a@[j],
                stk@.len() == 0 && child != usize::MAX ==> forall|j: int|
                    0 <= j < i ==> a@[child as int] <= #[trigger] a@[j],
                stk@.len() == 0 && child != usize::MAX ==> forall|j: int|
                    0 <= j < child ==> a@[child as int] < #[trigger] a@[j],
                forall|j: int|
                    0 <= j < i ==> (#[trigger] p@[j] == usize::MAX <==> (stk@.contains(j as usize)
                        || (stk@.len() == 0 && child != usize::MAX && j == child))),
                forall|j: int| i <= j < n ==> #[trigger] p@[j] == usize::MAX,
                forall|j: int| 0 <= j < n ==> parent_ok(a@, p@, j),
            decreases stk@.len(),
        {
            let ghost pre = stk@;
            let k = stk.pop().unwrap();
            child = k;
            proof {
                assert(forall|s: int| 0 <= s < stk@.len() ==> #[trigger] stk@[s] == pre[s]);
                assert(forall|s: int| 0 <= s < stk@.len() ==> #[trigger] stk@[s] < k);
                assert(!stk@.contains(k)) by {
                    if stk@.contains(k) {
                        let s = choose|s: int| 0 <= s < stk@.len() && stk@[s] == k;
                        assert(stk@[s] < k);
                    }
                }
                assert forall|j: int|
                    0 <= j < i && #[trigger] stk@.contains(j as usize) implies pre.contains(
                    j as usize,
                ) by {
                    let s = choose|s: int| 0 <= s < stk@.len() && stk@[s] == j as usize;
                    assert(pre[s] == j as usize);
                }
                assert forall|j: int|
                    0 <= j < i && #[trigger] pre.contains(j as usize) && j != k implies stk@.contains(
                    j as usize,
                ) by {
                    let s = choose|s: int| 0 <= s < pre.len() && pre[s] == j as usize;
                    assert(s != pre.len() - 1);
                    assert(stk@[s] == j as usize);
                }
                assert(pre.contains(k)) by {
                    assert(pre[pre.len() - 1] == k);
                }
            }
            if stk.len() > 0 {
                let ghost pp = p@;
                let j = stk[stk.len() - 1];
                p[k] = j;
                proof {
                    assert(a@[j as int] <= a@[k as int] && j < k);
                    assert(parent_ok(a@, p@, k as int));
                    assert(forall|j2: int|
                        0 <= j2 < n && j2 != k ==> #[trigger] p@[j2] == pp[j2]);
                    assert forall|j2: int| 0 <= j2 < n implies parent_ok(a@, p@, j2) by {
                        if j2 != k {
                            assert(parent_ok(a@, pp, j2));
                            assert(p@[j2] == pp[j2]);
                        }
                    }
                }
            } else {
                proof {
                    assert(pre.len() == 1 && pre[0] == k);
                    assert forall|j: int| 0 <= j < i && #[trigger] pre.contains(j as usize) implies j
                        == k by {
                        let s = choose|s: int| 0 <= s < pre.len() && pre[s] == j as usize;
                        assert(s == 0);
                    }
                }
            }
        }
        if child != usize::MAX {
            let ghost pp = p@;
            p[child] = i;
            proof {
                assert(a@[i as int] < a@[child as int]);
                assert(parent_ok(a@, p@, child as int));
                assert(forall|j2: int|
                    0 <= j2 < n && j2 != child ==> #[trigger] p@[j2] == pp[j2]);
                assert forall|j2: int| 0 <= j2 < n implies parent_ok(a@, p@, j2) by {
                    if j2 != child {
                        assert(parent_ok(a@, pp, j2));
                        assert(p@[j2] == pp[j2]);
                    }
                }
            }
        }
        let ghost before = stk@;
        stk.push(i);
        proof {
            assert(forall|s: int| 0 <= s < before.len() ==> #[trigger] stk@[s] == before[s]);
            assert(stk@[before.len() as int] == i);
            assert(stk@.contains(i));
            assert forall|j: int|
                0 <= j < i && #[trigger] before.contains(j as usize) implies stk@.contains(
                j as usize,
            ) by {
                let s = choose|s: int| 0 <= s < before.len() && before[s] == j as usize;
                assert(stk@[s] == j as usize);
            }
            assert forall|j: int|
                0 <= j < i && #[trigger] stk@.contains(j as usize) implies before.contains(
                j as usize,
            ) by {
                let s = choose|s: int| 0 <= s < stk@.len() && stk@[s] == j as usize;
                assert(s != before.len() as int);
                assert(before[s] == j as usize);
            }
            if before.len() >= 1 {
                assert(stk@[0] == before[0]);
                assert(a@[(before[before.len() - 1]) as int] <= a@[i as int]);
                assert(a@[(before[0]) as int] <= a@[i as int]);
            } else {
                assert(stk@[0] == i);
                if child != usize::MAX {
                    assert(forall|j: int| 0 <= j < i ==> a@[i as int] < #[trigger] a@[j]);
                } else {
                    assert(i == 0);
                }
            }
        }
        i += 1;
    }
    let mut s = stk.len();
    if n == 0 {
        return p;
    }
    assert(s >= 1);
    while s > 1
        invariant
            1 <= s <= stk@.len(),
            a@.len() == n,
            p@.len() == n,
            n >= 1,
            forall|t2: int| 0 <= t2 < stk@.len() ==> #[trigger] stk@[t2] < n,
            forall|s1: int, s2: int|
                0 <= s1 < s2 < stk@.len() ==> #[trigger] stk@[s1] < #[trigger] stk@[s2],
            forall|s1: int, s2: int|
                0 <= s1 < s2 < stk@.len() ==> a@[(#[trigger] stk@[s1]) as int] <= a@[(#[trigger] stk@[s2]) as int],
            forall|j: int| 0 <= j < n ==> a@[stk@[0] as int] <= #[trigger] a@[j],
            forall|j: int| 0 <= j < stk@[0] ==> a@[stk@[0] as int] < #[trigger] a@[j],
            forall|j: int|
                0 <= j < n ==> (#[trigger] p@[j] == usize::MAX <==> exists|t2: int|
                    0 <= t2 < s && stk@[t2] == j as usize),
            forall|j: int| 0 <= j < n ==> parent_ok(a@, p@, j),
        decreases s,
    {
        s -= 1;
        let k = stk[s];
        let j = stk[s - 1];
        let ghost pp = p@;
        p[k] = j;
        proof {
            assert(a@[j as int] <= a@[k as int] && j < k);
            assert(parent_ok(a@, p@, k as int));
            assert(forall|j2: int| 0 <= j2 < n && j2 != k ==> #[trigger] p@[j2] == pp[j2]);
            assert forall|j2: int| 0 <= j2 < n implies parent_ok(a@, p@, j2) by {
                if j2 != k {
                    assert(parent_ok(a@, pp, j2));
                    assert(p@[j2] == pp[j2]);
                }
            }
            assert forall|j2: int| 0 <= j2 < n && #[trigger] p@[j2] == usize::MAX implies exists|
                t2: int,
            |
                0 <= t2 < s && stk@[t2] == j2 as usize by {
                assert(j2 != k);
                assert(pp[j2] == usize::MAX);
                let t2 = choose|t2: int| 0 <= t2 < s + 1 && stk@[t2] == j2 as usize;
                assert(t2 != s);
                assert(0 <= t2 < s && stk@[t2] == j2 as usize);
            }
            assert forall|j2: int|
                0 <= j2 < n && (exists|t2: int| 0 <= t2 < s && stk@[t2] == j2 as usize) implies #[trigger] p@[j2]
                == usize::MAX by {
                let t2 = choose|t2: int| 0 <= t2 < s && stk@[t2] == j2 as usize;
                assert(stk@[t2] < stk@[s as int]);
                assert(j2 != k);
                assert(0 <= t2 < s + 1 && stk@[t2] == j2 as usize);
                assert(pp[j2] == usize::MAX);
            }
        }
    }
    assert(p@[stk@[0] as int] == usize::MAX);
    p
}

/// Builds the child arrays of the Cartesian tree: `t[i]` is the pair of
/// `i`'s left and right child, with `usize::MAX` for an absent child. A
/// left child stands earlier than its parent and holds a strictly larger
/// key; a right child stands later and holds a key no smaller.
pub fn cartesian_tree_down(a: &Vec<i64>) -> (t: Vec<(usize, usize)>)
    ensures
        t@.len() == a@.len(),
        forall|i: int|
            0 <= i < t@.len() ==> ((#[trigger] t@[i]).0 == usize::MAX || (t@[i].0 < i && a@[t@[i].0 as int] > a@[i])),
        forall|i: int|
            0 <= i < t@.len() ==> ((#[trigger] t@[i]).1 == usize::MAX || (i < t@[i].1 < a@.len()
                && a@[t@[i].1 as int] >= a@[i])),
{
    let n = a.len();
    let mut t: Vec<(usize, usize)> = Vec::new();
    let mut q: usize = 0;
    while q < n
        invariant
            q <= n,
            t@.len() == q,
            forall|i: int|
                0 <= i < q ==> ((#[trigger] t@[i]).0 == usize::MAX) && t@[i].1 == usize::MAX,
        decreases n - q,
    {
        t.push((usize::MAX, usize::MAX));
        q += 1;
    }
    let mut stk: Vec<usize> = Vec::new();
    let mut i: usize = 0;
    while i < n
        invariant
            i <= n,
            a@.len() == n,
            t@.len() == n,
            forall|s: int| 0 <= s < stk@.len() ==> #[trigger] stk@[s] < i,
            forall|s1: int, s2: int|
                0 <= s1 < s2 < stk@.len() ==> #[trigger] stk@[s1] < #[trigger] stk@[s2],
            forall|s1: int, s2: int|
                0 <= s1 < s2 < stk@.len() ==> a@[(#[trigger] stk@[s1]) as int] <= a@[(#[trigger] stk@[s2]) as int],
            forall|j: int|
                0 <= j < n ==> ((#[trigger] t@[j]).0 == usize::MAX || (t@[j].0 < j && a@[t@[j].0 as int] > a@[j])),
            forall|j: int|
                0 <= j < n ==> ((#[trigger] t@[j]).1 == usize::MAX || (j < t@[j].1 < n && a@[t@[j].1 as int] >= a@[j])),
        decreases n - i,
    {
        let mut child: usize = usize::MAX;
        while stk.len() > 0 && a[stk[stk.len() - 1]] > a[i]
            invariant
                i < n,
                a@.len() == n,
                t@.len() == n,
                child < i || child == usize::MAX,
                child != usize::MAX ==> a@[child as int] > a@[i as int],
                forall|s: int| 0 <= s < stk@.len() ==> #[trigger] stk@[s] < i,
                forall|s1: int, s2: int|
                    0 <= s1 < s2 < stk@.len() ==> #[trigger] stk@[s1] < #[trigger] stk@[s2],
                forall|s1: int, s2: int|
                    0 <= s1 < s2 < stk@.len() ==> a@[(#[trigger] stk@[s1]) as int] <= a@[(#[trigger] stk@[s2]) as int],
                forall|j: int|
                    0 <= j < n ==> ((#[trigger] t@[j]).0 == usize::MAX || (t@[j].0 < j && a@[t@[j].0 as int] > a@[j])),
                forall|j: int|
                    0 <= j < n ==> ((#[trigger] t@[j]).1 == usize::MAX || (j < t@[j].1 < n && a@[t@[j].1 as int] >= a@[j])),
            decreases stk@.len(),
        {
            let ghost pre = stk@;
            let k = stk.pop().unwrap();
            child = k;
            assert(forall|s: int| 0 <= s < stk@.len() ==> #[trigger] stk@[s] == pre[s]);
            if stk.len() > 0 {
                let j = stk[stk.len() - 1];
                let cur = t[j];
                t[j] = (cur.0, k);
                assert(j < k && a@[k as int] >= a@[j as int]);
            }
        }
        if child != usize::MAX {
            let cur = t[i];
            t[i] = (child, cur.1);
            assert(child < i && a@[child as int] > a@[i as int]);
        }
        stk.push(i);
        i += 1;
    }
    let mut s = stk.len();
    while s > 1
        invariant
            s <= stk@.len(),
            a@.len() == n,
            t@.len() == n,
            forall|t2: int| 0 <= t2 < stk@.len() ==> #[trigger] stk@[t2] < n,
            forall|s1: int, s2: int|
                0 <= s1 < s2 < stk@.len() ==> #[trigger] stk@[s1] < #[trigger] stk@[s2],
            forall|s1: int, s2: int|
                0 <= s1 < s2 < stk@.len() ==> a@[(#[trigger] stk@[s1]) as int] <= a@[(#[trigger] stk@[s2]) as int],
            forall|j: int|
                0 <= j < n ==> ((#[trigger] t@[j]).0 == usize::MAX || (t@[j].0 < j && a@[t@[j].0 as int] > a@[j])),
            forall|j: int|
                0 <= j < n ==> ((#[trigger] t@[j]).1 == usize::MAX || (j < t@[j].1 < n && a@[t@[j].1 as int] >= a@[j])),
        decreases s,
    {
        s -= 1;
        let k = stk[s];
        let j = stk[s - 1];
        let cur = t[j];
        t[j] = (cur.0, k);
        assert(j < k && a@[k as int] >= a@[j as int]);
    }
    t
}

} // verus!

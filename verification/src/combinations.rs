use vstd::prelude::*;

verus! {

/// Every sequence of the batch, with the value put in front.
pub open spec fn prepend_all(x: i32, cs: Seq<Seq<i32>>) -> Seq<Seq<i32>> {
    Seq::new(cs.len(), |t: int| seq![x] + cs[t])
}

/// All ways to choose `k` values from `s` keeping their order: one empty
/// choice for `k` of zero, nothing from an empty pool, the pool itself when
/// it is exactly used up, and otherwise every choice grouped by its first
/// element, in pool order.
pub open spec fn combos(s: Seq<i32>, k: nat) -> Seq<Seq<i32>>
    decreases k, s.len() + 1,
{
    if k == 0 {
        seq![Seq::<i32>::empty()]
    } else if s.len() == 0 {
        Seq::empty()
    } else if s.len() == k {
        seq![s]
    } else {
        combos_from(s, k, 0)
    }
}

/// The choices of `k` values from `s` whose first element stands at or
/// after position `i`.
pub open spec fn combos_from(s: Seq<i32>, k: nat, i: int) -> Seq<Seq<i32>>
    decreases k, s.len() - i,
{
    if k == 0 || i < 0 || i > s.len() - k {
        Seq::empty()
    } else {
        prepend_all(s[i], combos(s.skip(i + 1), (k - 1) as nat)) + combos_from(s, k, i + 1)
    }
}

/// All ways to choose `k` of the given values keeping their order.  A pool
/// that is too small to serve a positive `k` is left out, as the arithmetic
/// of the scan would leave the machine's range.
pub fn combinations(arr: &[i32], k: usize) -> (r: Vec<Vec<i32>>)
    requires
        arr@.len() >= k || k == 0 || arr@.len() == 0,
    ensures
        r@.map_values(|v: Vec<i32>| v@) == combos(arr@, k as nat),
    decreases k,
{
    if k == 0 {
        let mut res: Vec<Vec<i32>> = Vec::new();
        res.push(Vec::new());
        proof {
            assert(res@.map_values(|v: Vec<i32>| v@) =~= seq![Seq::<i32>::empty()]);
        }
        return res;
    }
    if arr.len() == 0 {
        let res: Vec<Vec<i32>> = Vec::new();
        proof {
            assert(res@.map_values(|v: Vec<i32>| v@) =~= Seq::<Seq<i32>>::empty());
        }
        return res;
    }
    if arr.len() == k {
        let mut whole: Vec<i32> = Vec::new();
        let n = arr.len();
        let mut t: usize = 0;
        while t < n
            invariant
                t <= n,
                n == arr@.len(),
                whole@ == arr@.take(t as int),
            decreases n - t,
        {
            whole.push(arr[t]);
            proof {
                assert(whole@ =~= arr@.take(t + 1));
            }
            t = t + 1;
        }
        let mut res: Vec<Vec<i32>> = Vec::new();
        proof {
            assert(whole@ =~= arr@);
        }
        res.push(whole);
        proof {
            assert(res@.map_values(|v: Vec<i32>| v@) =~= seq![arr@]);
        }
        return res;
    }
    let mut res: Vec<Vec<i32>> = Vec::new();
    let n = arr.len();
    let mut i: usize = 0;
    while i <= n - k
        invariant
            1 <= k <= n,
            n == arr@.len(),
            i <= n - k + 1,
            res@.map_values(|v: Vec<i32>| v@) + combos_from(arr@, k as nat, i as int)
                == combos_from(arr@, k as nat, 0),
        decreases n - k + 1 - i,
    {
        let sub = combinations(&arr[i + 1..n], k - 1);
        let ghost subs = sub@.map_values(|v: Vec<i32>| v@);
        proof {
            assert(arr@.subrange(i + 1, n as int) =~= arr@.skip(i + 1));
            assert(combos_from(arr@, k as nat, i as int) == prepend_all(arr@[i as int], subs)
                + combos_from(arr@, k as nat, i + 1));
        }
        let m = sub.len();
        let mut j: usize = 0;
        let ghost r0 = res@.map_values(|v: Vec<i32>| v@);
        while j < m
            invariant
                j <= m,
                m == sub@.len(),
                i < n,
                n == arr@.len(),
                subs == sub@.map_values(|v: Vec<i32>| v@),
                res@.map_values(|v: Vec<i32>| v@) =~= r0 + prepend_all(arr@[i as int], subs).take(
                    j as int,
                ),
            decreases m - j,
        {
            let mut c: Vec<i32> = Vec::new();
            c.push(arr[i]);
            let len_j = sub[j].len();
            let mut t: usize = 0;
            while t < len_j
                invariant
                    t <= len_j,
                    j < m,
                    m == sub@.len(),
                    len_j == sub@[j as int]@.len(),
                    c@ == seq![arr@[i as int]] + sub@[j as int]@.take(t as int),
                decreases len_j - t,
            {
                c.push(sub[j][t]);
                proof {
                    assert(c@ =~= seq![arr@[i as int]] + sub@[j as int]@.take(t + 1));
                }
                t = t + 1;
            }
            proof {
                assert(c@ =~= seq![arr@[i as int]] + sub@[j as int]@);
                assert(c@ =~= prepend_all(arr@[i as int], subs)[j as int]);
            }
            let ghost old_res_map = res@.map_values(|v: Vec<i32>| v@);
            let ghost c_view = c@;
            res.push(c);
            proof {
                let pj = prepend_all(arr@[i as int], subs);
                assert(res@.map_values(|v: Vec<i32>| v@) =~= old_res_map.push(c_view));
                assert(pj.take(j + 1) =~= pj.take(j as int).push(pj[j as int]));
                assert(old_res_map.push(c_view) =~= r0 + pj.take(j + 1));
                assert(res@.map_values(|v: Vec<i32>| v@) =~= r0 + prepend_all(
                    arr@[i as int],
                    subs,
                ).take(j + 1));
            }
            j = j + 1;
        }
        proof {
            assert(prepend_all(arr@[i as int], subs).take(m as int) =~= prepend_all(
                arr@[i as int],
                subs,
            ));
            assert(res@.map_values(|v: Vec<i32>| v@) + combos_from(arr@, k as nat, i + 1)
                =~= combos_from(arr@, k as nat, 0));
        }
        i = i + 1;
    }
    proof {
        assert(combos_from(arr@, k as nat, i as int) =~= Seq::<Seq<i32>>::empty());
        assert(res@.map_values(|v: Vec<i32>| v@) =~= combos(arr@, k as nat));
    }
    res
}

} // verus!

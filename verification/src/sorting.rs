//! A stable insertion sort by precomputed keys.

use vstd::prelude::*;

verus! {

/// Key `a` goes strictly before key `b`: smaller first, or larger first when
/// `descending`.
pub open spec fn key_before(a: u128, b: u128, descending: bool) -> bool {
    if descending {
        a > b
    } else {
        a < b
    }
}

/// Whether key `a` goes strictly before key `b`.
pub fn goes_before(a: u128, b: u128, descending: bool) -> (r: bool)
    ensures
        r == key_before(a, b, descending),
{
    if descending {
        a > b
    } else {
        a < b
    }
}

/// No key of `k` goes strictly before a key to its left.
pub open spec fn sorted_keys(k: Seq<u128>, descending: bool) -> bool {
    forall|i: int, j: int| 0 <= i < j < k.len() ==> !key_before(#[trigger] k[j], #[trigger] k[i], descending)
}

/// `r` and `rk` are `v` and `keys` taken at the distinct positions `idx`,
/// with entries of equal keys in the order of their positions.
pub open spec fn stable_rearrangement<T>(
    v: Seq<T>,
    keys: Seq<u128>,
    r: Seq<T>,
    rk: Seq<u128>,
    idx: Seq<int>,
) -> bool {
    &&& idx.len() == r.len()
    &&& rk.len() == r.len()
    &&& forall|m: int|
        0 <= m < r.len() ==> {
            &&& 0 <= #[trigger] idx[m] < v.len()
            &&& r[m] == v[idx[m]]
            &&& rk[m] == keys[idx[m]]
        }
    &&& forall|m: int, n: int| 0 <= m < n < r.len() ==> #[trigger] idx[m] != #[trigger] idx[n]
    &&& forall|m: int, n: int|
        0 <= m < n < r.len() && rk[m] == rk[n] ==> #[trigger] idx[m] < #[trigger] idx[n]
}

/// Where key `k` goes among the keys `rk`: before the first of them that it
/// goes strictly before, or at the end.
pub open spec fn insert_position(rk: Seq<u128>, k: u128, descending: bool) -> int
    decreases rk.len(),
{
    if rk.len() == 0 {
        0
    } else if key_before(k, rk[0], descending) {
        0
    } else {
        1 + insert_position(rk.drop_first(), k, descending)
    }
}

/// `v` sorted by `keys` (with the keys), taking the elements in order and
/// putting each after all those that it does not go strictly before: the
/// stable sort of `v`.
pub open spec fn stable_sorted<T>(v: Seq<T>, keys: Seq<u128>, descending: bool) -> (Seq<T>, Seq<u128>)
    decreases v.len(),
{
    if v.len() == 0 || keys.len() == 0 {
        (Seq::empty(), Seq::empty())
    } else {
        let (r, rk) = stable_sorted(v.drop_last(), keys.drop_last(), descending);
        let p = insert_position(rk, keys.last(), descending);
        (r.insert(p, v.last()), rk.insert(p, keys.last()))
    }
}

/// The first position of `rk` whose key `k` goes strictly before is where `k` goes.
proof fn lemma_insert_position(rk: Seq<u128>, k: u128, descending: bool, p: int)
    requires
        0 <= p <= rk.len(),
        forall|m: int| 0 <= m < p ==> !key_before(k, #[trigger] rk[m], descending),
        p < rk.len() ==> key_before(k, rk[p], descending),
    ensures
        insert_position(rk, k, descending) == p,
    decreases rk.len(),
{
    if rk.len() > 0 && p > 0 {
        assert(!key_before(k, rk[0], descending));
        lemma_insert_position(rk.drop_first(), k, descending, p - 1);
    }
}

/// `r` is `v` taken at the distinct positions `idx`: a reordering of `v`.
pub open spec fn rearranged<T>(v: Seq<T>, r: Seq<T>, idx: Seq<int>) -> bool {
    &&& idx.len() == r.len()
    &&& r.len() == v.len()
    &&& forall|m: int| 0 <= m < r.len() ==> 0 <= #[trigger] idx[m] < v.len() && r[m] == v[idx[m]]
    &&& forall|m: int, n: int| 0 <= m < n < r.len() ==> #[trigger] idx[m] != #[trigger] idx[n]
}

/// Where a key goes lies within the keys.
proof fn lemma_insert_position_range(rk: Seq<u128>, k: u128, descending: bool)
    ensures
        0 <= insert_position(rk, k, descending) <= rk.len(),
    decreases rk.len(),
{
    if rk.len() > 0 && !key_before(k, rk[0], descending) {
        lemma_insert_position_range(rk.drop_first(), k, descending);
    }
}

/// The stable sort of `v` is a reordering of `v`.
pub proof fn lemma_stable_sorted_rearranged<T>(v: Seq<T>, keys: Seq<u128>, descending: bool)
    requires
        keys.len() == v.len(),
    ensures
        stable_sorted(v, keys, descending).1.len() == v.len(),
        exists|idx: Seq<int>| rearranged(v, stable_sorted(v, keys, descending).0, idx),
    decreases v.len(),
{
    if v.len() == 0 {
        assert(rearranged(v, stable_sorted(v, keys, descending).0, Seq::<int>::empty()));
    } else {
        let d = v.drop_last();
        lemma_stable_sorted_rearranged(d, keys.drop_last(), descending);
        let (r, rk) = stable_sorted(d, keys.drop_last(), descending);
        let idx0 = choose|idx: Seq<int>| rearranged(d, r, idx);
        assert(rk.len() == d.len() && r.len() == d.len());
        let p = insert_position(rk, keys.last(), descending);
        lemma_insert_position_range(rk, keys.last(), descending);
        assert(stable_sorted(v, keys, descending) == (r.insert(p, v.last()), rk.insert(p, keys.last())));
        let r2 = r.insert(p, v.last());
        let idx = idx0.insert(p, v.len() - 1);
        assert forall|m: int| 0 <= m < r2.len() implies 0 <= #[trigger] idx[m] < v.len() && r2[m] == v[idx[m]] by {
            if m < p {
                assert(idx[m] == idx0[m]);
                assert(r2[m] == r[m]);
            } else if m > p {
                assert(idx[m] == idx0[m - 1]);
                assert(r2[m] == r[m - 1]);
            }
        }
        assert forall|m: int, n: int| 0 <= m < n < r2.len() implies #[trigger] idx[m] != #[trigger] idx[n] by {
            if m < p && n < p {
            } else if m < p && n == p {
                assert(idx0[m] < d.len());
            } else if m < p {
                assert(idx[n] == idx0[n - 1]);
            } else if m == p {
                assert(idx[n] == idx0[n - 1]);
                assert(idx0[n - 1] < d.len());
            } else {
                assert(idx[n] == idx0[n - 1]);
                assert(idx[m] == idx0[m - 1]);
            }
        }
        assert(rearranged(v, r2, idx));
        assert(rearranged(v, stable_sorted(v, keys, descending).0, idx));
    }
}

/// The elements of `v`, last first.
pub fn reversed<T>(v: Vec<T>) -> (r: Vec<T>)
    ensures
        r@ == v@.reverse(),
{
    let mut v = v;
    let ghost v0 = v@;
    let mut r: Vec<T> = Vec::new();
    while v.len() > 0
        invariant
            v@ == v0.take(v@.len() as int),
            r@ == v0.skip(v@.len() as int).reverse(),
            v@.len() <= v0.len(),
        decreases v.len(),
    {
        let x = v.pop().unwrap();
        r.push(x);
        assert(r@ =~= v0.skip(v@.len() as int).reverse());
        assert(v@ =~= v0.take(v@.len() as int));
    }
    assert(v0.skip(0) =~= v0);
    r
}

/// Sorts `v` by `keys` (the key of `v[i]` is `keys[i]`), smallest key first,
/// or largest first when `descending`; elements of equal keys keep their
/// order. Returns the sorted elements and their keys.
pub fn stable_sort_by_key<T>(v: Vec<T>, keys: Vec<u128>, descending: bool) -> (r: (Vec<T>, Vec<u128>))
    requires
        keys@.len() == v@.len(),
    ensures
        r.0@.len() == v@.len(),
        sorted_keys(r.1@, descending),
        r.0@.to_multiset() == v@.to_multiset(),
        exists|idx: Seq<int>| stable_rearrangement(v@, keys@, r.0@, r.1@, idx),
        (r.0@, r.1@) == stable_sorted(v@, keys@, descending),
{
    broadcast use vstd::seq_lib::group_to_multiset_ensures;

    let ghost v0 = v@;
    let n = v.len();
    let mut rest = reversed(v);
    let mut res: Vec<T> = Vec::new();
    let mut res_keys: Vec<u128> = Vec::new();
    let ghost mut idx: Seq<int> = Seq::empty();
    let mut i: usize = 0;
    assert(v0.take(0) =~= Seq::<T>::empty());
    while i < n
        invariant
            n == v0.len(),
            keys@.len() == n,
            i <= n,
            rest@ == v0.skip(i as int).reverse(),
            res@.len() == i,
            sorted_keys(res_keys@, descending),
            stable_rearrangement(v0, keys@, res@, res_keys@, idx),
            forall|m: int| 0 <= m < i ==> #[trigger] idx[m] < i,
            res@.to_multiset() == v0.take(i as int).to_multiset(),
            (res@, res_keys@) == stable_sorted(v0.take(i as int), keys@.take(i as int), descending),
        decreases n - i,
    {
        proof {
            assert(v0.skip(i as int).reverse().last() == v0[i as int]);
        }
        let x = rest.pop().unwrap();
        proof {
            assert(rest@ =~= v0.skip(i + 1).reverse());
        }
        let key = keys[i];
        let mut p: usize = 0;
        while p < res.len() && !goes_before(key, res_keys[p], descending)
            invariant
                p <= res@.len(),
                res_keys@.len() == res@.len(),
                forall|m: int| 0 <= m < p ==> !key_before(key, #[trigger] res_keys@[m], descending),
            decreases res@.len() - p,
        {
            p += 1;
        }
        let ghost old_res = res@;
        let ghost old_keys = res_keys@;
        let ghost old_idx = idx;
        proof {
            lemma_insert_position(old_keys, key, descending, p as int);
            assert(v0.take(i + 1).drop_last() =~= v0.take(i as int));
            assert(keys@.take(i + 1).drop_last() =~= keys@.take(i as int));
        }
        res.insert(p, x);
        res_keys.insert(p, key);
        proof {
            idx = old_idx.insert(p as int, i as int);
            assert forall|a: int, b: int| 0 <= a < b < res_keys@.len() implies !key_before(
                #[trigger] res_keys@[b],
                #[trigger] res_keys@[a],
                descending,
            ) by {
                if a < p && b == p {
                } else if a < p && b > p {
                    assert(res_keys@[b] == old_keys[b - 1]);
                } else if a == p && b > p {
                    assert(res_keys@[b] == old_keys[b - 1]);
                    if p < old_keys.len() {
                        assert(key_before(key, old_keys[p as int], descending));
                    }
                } else if a > p {
                    assert(res_keys@[b] == old_keys[b - 1]);
                    assert(res_keys@[a] == old_keys[a - 1]);
                }
            }
            assert forall|m: int, o: int|
                0 <= m < o < res@.len() && res_keys@[m] == res_keys@[o] implies #[trigger] idx[m]
                < #[trigger] idx[o] by {
                if m < p && o == p {
                } else if m == p && o > p {
                    assert(res_keys@[o] == old_keys[o - 1]);
                    assert(key_before(key, old_keys[p as int], descending));
                } else if m < p && o > p {
                    assert(idx[o] == old_idx[o - 1]);
                } else if m > p {
                    assert(idx[o] == old_idx[o - 1]);
                    assert(idx[m] == old_idx[m - 1]);
                }
            }
            assert forall|m: int| 0 <= m < res@.len() implies {
                &&& 0 <= #[trigger] idx[m] < v0.len()
                &&& res@[m] == v0[idx[m]]
                &&& res_keys@[m] == keys@[idx[m]]
                &&& idx[m] < i + 1
            } by {
                if m < p {
                } else if m == p {
                    assert(v0.skip(i as int).reverse().last() == v0[i as int]);
                } else {
                    assert(idx[m] == old_idx[m - 1]);
                }
            }
            assert forall|m: int, o: int| 0 <= m < o < res@.len() implies #[trigger] idx[m]
                != #[trigger] idx[o] by {
                if m < p && o == p {
                } else if m == p && o > p {
                    assert(idx[o] == old_idx[o - 1]);
                } else if m < p && o > p {
                    assert(idx[o] == old_idx[o - 1]);
                } else if m > p {
                    assert(idx[o] == old_idx[o - 1]);
                    assert(idx[m] == old_idx[m - 1]);
                }
            }
            assert(v0.take(i + 1) =~= v0.take(i as int).push(v0[i as int]));
            assert(x == v0[i as int]);
            vstd::seq_lib::to_multiset_insert(old_res, p as int, x);
            vstd::seq_lib::to_multiset_build(v0.take(i as int), v0[i as int]);
        }
        i += 1;
    }
    proof {
        assert(v0.take(n as int) =~= v0);
        assert(keys@.take(n as int) =~= keys@);
        assert(stable_rearrangement(v0, keys@, res@, res_keys@, idx));
        assert(exists|ix: Seq<int>| stable_rearrangement(v0, keys@, res@, res_keys@, ix));
    }
    (res, res_keys)
}

} // verus!

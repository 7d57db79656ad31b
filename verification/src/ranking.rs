//! Top-k selection over integer ranking keys.
//!
//! Positions `0..keys.len()` are ranked by their key, ties broken by the
//! smaller position first. This is the order that a stable sort by key gives,
//! in either direction.

use vstd::prelude::*;

verus! {

/// Position `a` ranks before position `b`: its key is smaller (larger when
/// `descending`), or the keys are equal and `a` comes first.
pub open spec fn precedes(keys: Seq<u32>, descending: bool, a: int, b: int) -> bool {
    if descending {
        keys[a] > keys[b] || (keys[a] == keys[b] && a < b)
    } else {
        keys[a] < keys[b] || (keys[a] == keys[b] && a < b)
    }
}

/// The smaller of two numbers.
pub open spec fn min_nat(a: nat, b: nat) -> nat {
    if a <= b {
        a
    } else {
        b
    }
}

/// `res` lists, in ranking order, the first `min(k, n)` positions of the
/// ranking of the first `n` keys: every listed position ranks before every
/// later listed one and before every position it leaves out.
pub open spec fn is_top_k(keys: Seq<u32>, n: nat, descending: bool, k: nat, res: Seq<usize>) -> bool {
    &&& res.len() == min_nat(k, n)
    &&& forall|i: int| 0 <= i < res.len() ==> (#[trigger] res[i]) < n
    &&& forall|i: int, j: int|
        0 <= i < j < res.len() ==> precedes(keys, descending, #[trigger] res[i] as int, #[trigger] res[j] as int)
    &&& forall|s: int, i: int|
        0 <= s < n && !res.contains(s as usize) && 0 <= i < res.len() ==> #[trigger] precedes(
            keys,
            descending,
            res[i] as int,
            s,
        )
}

/// The first `min(k, keys.len())` positions of the ranking of `keys`.
pub open spec fn ranks_first(keys: Seq<u32>, descending: bool, k: nat, res: Seq<usize>) -> bool {
    is_top_k(keys, keys.len(), descending, k, res)
}

/// Tells whether position `a` ranks before position `b`, for `a < b`.
fn not_after(keys: &[u32], descending: bool, a: usize, b: usize) -> (r: bool)
    requires
        a < b < keys@.len(),
    ensures
        r == precedes(keys@, descending, a as int, b as int),
{
    if descending {
        keys[a] >= keys[b]
    } else {
        keys[a] <= keys[b]
    }
}

/// Returns the positions of the `k` first-ranked keys, in ranking order
/// (all positions, when there are fewer than `k`).
pub fn top_k(keys: &[u32], k: usize, descending: bool) -> (res: Vec<usize>)
    ensures
        ranks_first(keys@, descending, k as nat, res@),
{
    let n = keys.len();
    let mut res: Vec<usize> = Vec::new();
    let mut s: usize = 0;
    while s < n
        invariant
            n == keys@.len(),
            s <= n,
            is_top_k(keys@, s as nat, descending, k as nat, res@),
            res@.len() == s ==> forall|t: int| 0 <= t < s ==> #[trigger] res@.contains(t as usize),
        decreases n - s,
    {
        // Find how many listed positions rank before `s`.
        let mut p: usize = 0;
        while p < res.len() && not_after(keys, descending, res[p], s)
            invariant
                n == keys@.len(),
                s < n,
                p <= res@.len(),
                is_top_k(keys@, s as nat, descending, k as nat, res@),
                forall|i: int| 0 <= i < p ==> precedes(keys@, descending, #[trigger] res@[i] as int, s as int),
            decreases res@.len() - p,
        {
            p += 1;
        }
        proof {
            // Every listed position from `p` on ranks after `s`.
            if p < res@.len() {
                assert(precedes(keys@, descending, s as int, res@[p as int] as int));
            }
            assert forall|i: int| p <= i < res@.len() implies precedes(
                keys@,
                descending,
                s as int,
                #[trigger] res@[i] as int,
            ) by {
                if i > p {
                    assert(precedes(keys@, descending, res@[p as int] as int, res@[i] as int));
                }
            }
        }
        let ghost old_res = res@;
        if res.len() < k {
            res.insert(p, s);
            proof {
                assert(old_res.len() == s);
                assert(res@ == old_res.insert(p as int, s));
                assert forall|t: int| 0 <= t < s + 1 implies #[trigger] res@.contains(t as usize) by {
                    if t < s {
                        assert(old_res.contains(t as usize));
                        let j = choose|j: int| 0 <= j < old_res.len() && old_res[j] == t as usize;
                        if j < p {
                            assert(res@[j] == t as usize);
                        } else {
                            assert(res@[j + 1] == t as usize);
                        }
                    } else {
                        assert(res@[p as int] == s);
                    }
                }
                assert forall|i: int, j: int|
                    0 <= i < j < res@.len() implies precedes(
                    keys@,
                    descending,
                    #[trigger] res@[i] as int,
                    #[trigger] res@[j] as int,
                ) by {
                    if j < p {
                        assert(res@[i] == old_res[i] && res@[j] == old_res[j]);
                    } else if j == p {
                        assert(res@[i] == old_res[i]);
                    } else if i < p {
                        assert(res@[i] == old_res[i] && res@[j] == old_res[j - 1]);
                    } else if i == p {
                        assert(res@[j] == old_res[j - 1]);
                    } else {
                        assert(res@[i] == old_res[i - 1] && res@[j] == old_res[j - 1]);
                    }
                }
            }
        } else if p < res.len() {
            res.insert(p, s);
            let _ = res.pop();
            proof {
                let x = old_res[old_res.len() - 1];
                assert(res@ == old_res.insert(p as int, s).drop_last());
                assert(precedes(keys@, descending, s as int, x as int));
                assert forall|i: int, j: int|
                    0 <= i < j < res@.len() implies precedes(
                    keys@,
                    descending,
                    #[trigger] res@[i] as int,
                    #[trigger] res@[j] as int,
                ) by {
                    if j < p {
                        assert(res@[i] == old_res[i] && res@[j] == old_res[j]);
                    } else if j == p {
                        assert(res@[i] == old_res[i]);
                    } else if i < p {
                        assert(res@[i] == old_res[i] && res@[j] == old_res[j - 1]);
                    } else if i == p {
                        assert(res@[j] == old_res[j - 1]);
                    } else {
                        assert(res@[i] == old_res[i - 1] && res@[j] == old_res[j - 1]);
                    }
                }
                assert forall|t: int, i: int|
                    0 <= t < s + 1 && !res@.contains(t as usize) && 0 <= i < res@.len() implies #[trigger] precedes(
                    keys@,
                    descending,
                    res@[i] as int,
                    t,
                ) by {
                    // `t` is either the dropped last position or was already left out.
                    if t == s {
                        assert(res@[p as int] == s);
                    } else if t == x as int {
                        if i < p {
                            assert(res@[i] == old_res[i]);
                            assert(precedes(keys@, descending, old_res[i] as int, x as int));
                        } else if i == p {
                        } else {
                            assert(res@[i] == old_res[i - 1]);
                            assert(precedes(keys@, descending, old_res[i - 1] as int, x as int));
                        }
                    } else {
                        assert(!old_res.contains(t as usize)) by {
                            if old_res.contains(t as usize) {
                                let j = choose|j: int| 0 <= j < old_res.len() && old_res[j] == t as usize;
                                if j < p {
                                    assert(res@[j] == t as usize);
                                } else if j < old_res.len() - 1 {
                                    assert(res@[j + 1] == t as usize);
                                } else {
                                    assert(t == x as int);
                                }
                            }
                        }
                        assert(precedes(keys@, descending, x as int, t));
                        if i < p {
                            assert(res@[i] == old_res[i]);
                        } else if i == p {
                        } else {
                            assert(res@[i] == old_res[i - 1]);
                        }
                    }
                }
            }
        } else {
            proof {
                assert forall|t: int, i: int|
                    0 <= t < s + 1 && !res@.contains(t as usize) && 0 <= i < res@.len() implies #[trigger] precedes(
                    keys@,
                    descending,
                    res@[i] as int,
                    t,
                ) by {
                    if t == s {
                    }
                }
            }
        }
        s += 1;
    }
    res
}

/// Two rankings of the same keys agree on their first `i` positions.
proof fn lemma_top_k_prefix(keys: Seq<u32>, n: nat, descending: bool, k: nat, r1: Seq<usize>, r2: Seq<usize>, i: nat)
    requires
        is_top_k(keys, n, descending, k, r1),
        is_top_k(keys, n, descending, k, r2),
        i <= r1.len(),
    ensures
        forall|j: int| 0 <= j < i ==> r1[j] == r2[j],
    decreases i,
{
    if i > 0 {
        let m = (i - 1) as int;
        lemma_top_k_prefix(keys, n, descending, k, r1, r2, (i - 1) as nat);
        let a = r1[m];
        let b = r2[m];
        if a != b {
            // `b` ranks before `a`, whether `a` is left out of `r2` or listed after `b`.
            if r2.contains(a) {
                let q = choose|q: int| 0 <= q < r2.len() && r2[q] == a;
                if q < m {
                    assert(r1[q] == a);
                    assert(precedes(keys, descending, r1[q] as int, r1[m] as int));
                } else {
                    assert(precedes(keys, descending, b as int, a as int));
                }
            } else {
                assert(precedes(keys, descending, r2[m] as int, a as int));
            }
            assert(precedes(keys, descending, b as int, a as int));
            // ... and `a` ranks before `b` in the same way: a contradiction.
            if r1.contains(b) {
                let q = choose|q: int| 0 <= q < r1.len() && r1[q] == b;
                if q < m {
                    assert(r2[q] == b);
                    assert(precedes(keys, descending, r2[q] as int, r2[m] as int));
                } else {
                    assert(precedes(keys, descending, a as int, b as int));
                }
            } else {
                assert(precedes(keys, descending, r1[m] as int, b as int));
            }
        }
    }
}

/// The ranking is unique: positions are ordered by key with ties broken by
/// position, so the first `k` are fixed.
pub proof fn law_ranks_first_unique(keys: Seq<u32>, descending: bool, k: nat, r1: Seq<usize>, r2: Seq<usize>)
    requires
        ranks_first(keys, descending, k, r1),
        ranks_first(keys, descending, k, r2),
    ensures
        r1 == r2,
{
    lemma_top_k_prefix(keys, keys.len(), descending, k, r1, r2, r1.len());
    assert(r1 =~= r2);
}

/// Different positions below `n`: there are at most `n`, and exactly `n`
/// when every position below `n` is among them.
pub proof fn lemma_positions_cover(s: Seq<usize>, n: nat)
    requires
        n <= usize::MAX,
        s.no_duplicates(),
        forall|i: int| 0 <= i < s.len() ==> #[trigger] s[i] < n,
    ensures
        s.len() <= n,
        (forall|t: int| 0 <= t < n ==> s.contains(#[trigger] (t as usize))) ==> s.len() == n,
        s.len() == n ==> forall|t: int| 0 <= t < n ==> s.contains(#[trigger] (t as usize)),
{
    let x = s.map_values(|v: usize| v as int);
    assert(x.no_duplicates()) by {
        assert forall|a: int, b: int| 0 <= a < x.len() && 0 <= b < x.len() && a != b implies x[a] != x[b] by {
            assert(s[a] != s[b]);
        }
    }
    x.unique_seq_to_set();
    vstd::seq_lib::seq_to_set_is_finite(x);
    let r = vstd::set_lib::set_int_range(0, n as int);
    vstd::set_lib::lemma_int_range(0, n as int);
    assert(x.to_set().subset_of(r)) by {
        assert forall|v: int| #[trigger] x.to_set().contains(v) implies r.contains(v) by {
            let i = choose|i: int| 0 <= i < x.len() && x[i] == v;
            assert(s[i] < n);
        }
    }
    vstd::set_lib::lemma_len_subset(x.to_set(), r);
    if forall|t: int| 0 <= t < n ==> s.contains(#[trigger] (t as usize)) {
        assert(r.subset_of(x.to_set())) by {
            assert forall|v: int| #[trigger] r.contains(v) implies x.to_set().contains(v) by {
                assert(s.contains(v as usize));
                let i = choose|i: int| 0 <= i < s.len() && s[i] == v as usize;
                assert(x[i] == v);
            }
        }
        vstd::set_lib::lemma_len_subset(r, x.to_set());
    }
    if s.len() == n {
        vstd::set_lib::lemma_subset_equality(x.to_set(), r);
        assert forall|t: int| 0 <= t < n implies s.contains(#[trigger] (t as usize)) by {
            assert(r.contains(t));
            assert(x.to_set().contains(t));
            let i = choose|i: int| 0 <= i < x.len() && x[i] == t;
            assert(s[i] == t as usize);
        }
    }
}

/// Two selections that each list, in ascending order of key, positions
/// none of which any left-out position undercuts cannot have a smaller key
/// at the same place in the first.
proof fn lemma_top_keys_not_below(keys: Seq<u32>, a: Seq<usize>, b: Seq<usize>, i: int)
    requires
        keys.len() <= usize::MAX,
        a.len() <= usize::MAX,
        a.len() == b.len(),
        a.no_duplicates(),
        b.no_duplicates(),
        forall|j: int| 0 <= j < a.len() ==> #[trigger] a[j] < keys.len(),
        forall|j: int| 0 <= j < b.len() ==> #[trigger] b[j] < keys.len(),
        forall|x: int, y: int| 0 <= x < y < a.len() ==> keys[#[trigger] a[x] as int] <= keys[#[trigger] a[y] as int],
        forall|x: int, y: int| 0 <= x < y < b.len() ==> keys[#[trigger] b[x] as int] <= keys[#[trigger] b[y] as int],
        forall|s: int, j: int|
            0 <= s < keys.len() && !b.contains(s as usize) && 0 <= j < b.len() ==> keys[#[trigger] b[j] as int]
                <= #[trigger] keys[s],
        0 <= i < a.len(),
    ensures
        keys[a[i] as int] >= keys[b[i] as int],
{
    if keys[a[i] as int] < keys[b[i] as int] {
        // Each of a[0..=i] lies in b, before position i: too many for i places.
        let idx = Seq::new((i + 1) as nat, |j: int| choose|q: int| 0 <= q < b.len() && b[q] == a[j]);
        assert forall|j: int| 0 <= j <= i implies 0 <= #[trigger] idx[j] < i && b[idx[j]] == a[j] by {
            assert(keys[a[j] as int] <= keys[a[i] as int]);
            if !b.contains(a[j]) {
                assert(keys[b[b.len() - 1] as int] <= keys[a[j] as int]);
                if i < b.len() - 1 {
                    assert(keys[b[i] as int] <= keys[b[b.len() - 1] as int]);
                }
                assert(false);
            }
            let q = idx[j];
            if q >= i {
                if q > i {
                    assert(keys[b[i] as int] <= keys[b[q] as int]);
                }
                assert(false);
            }
        }
        let us = idx.map_values(|q: int| q as usize);
        assert forall|x: int, y: int| 0 <= x < us.len() && 0 <= y < us.len() && x != y implies us[x] != us[y] by {
            assert(b[idx[x]] == a[x] && b[idx[y]] == a[y]);
            assert(a[x] != a[y]);
            assert(0 <= idx[x] < i && 0 <= idx[y] < i);
            assert(us[x] as int == idx[x] && us[y] as int == idx[y]);
        }
        assert forall|j: int| 0 <= j < us.len() implies #[trigger] us[j] < i by {
            assert(idx[j] < i);
        }
        lemma_positions_cover(us, i as nat);
    }
}

/// Two selections of the same number of positions, each listing them in
/// ascending order of key with no left-out position undercutting them,
/// have the same keys, place by place (they may differ in which of equal
/// keys they list).
pub proof fn lemma_top_keys_agree(keys: Seq<u32>, a: Seq<usize>, b: Seq<usize>)
    requires
        keys.len() <= usize::MAX,
        a.len() <= usize::MAX,
        a.len() == b.len(),
        a.no_duplicates(),
        b.no_duplicates(),
        forall|j: int| 0 <= j < a.len() ==> #[trigger] a[j] < keys.len(),
        forall|j: int| 0 <= j < b.len() ==> #[trigger] b[j] < keys.len(),
        forall|x: int, y: int| 0 <= x < y < a.len() ==> keys[#[trigger] a[x] as int] <= keys[#[trigger] a[y] as int],
        forall|x: int, y: int| 0 <= x < y < b.len() ==> keys[#[trigger] b[x] as int] <= keys[#[trigger] b[y] as int],
        forall|s: int, j: int|
            0 <= s < keys.len() && !a.contains(s as usize) && 0 <= j < a.len() ==> keys[#[trigger] a[j] as int]
                <= #[trigger] keys[s],
        forall|s: int, j: int|
            0 <= s < keys.len() && !b.contains(s as usize) && 0 <= j < b.len() ==> keys[#[trigger] b[j] as int]
                <= #[trigger] keys[s],
    ensures
        forall|i: int| 0 <= i < a.len() ==> keys[#[trigger] a[i] as int] == keys[b[i] as int],
{
    assert forall|i: int| 0 <= i < a.len() implies keys[#[trigger] a[i] as int] == keys[b[i] as int] by {
        lemma_top_keys_not_below(keys, a, b, i);
        lemma_top_keys_not_below(keys, b, a, i);
    }
}

} // verus!

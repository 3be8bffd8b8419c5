//! Repairing non-monotonic word timestamps.
//!
//! The longest non-decreasing subsequence of the timestamps is kept as it
//! is; every other timestamp is rebuilt from its nearest kept neighbours.
//! Only the order of the timestamps matters for which ones are kept, so the
//! plan is computed over order keys (`keys[a] <= keys[b]` exactly when the
//! timestamp at `a` is at most the one at `b`) and says, for every
//! position, where its repaired value comes from.

use vstd::prelude::*;

verus! {

/// Length of the longest non-decreasing run of `keys` (a subsequence, not
/// necessarily contiguous) that ends at position `i`.
pub open spec fn lnds(keys: Seq<u64>, i: int) -> nat
    decreases i, i + 1,
{
    if i < 0 {
        0
    } else {
        1 + best_before(keys, i, i)
    }
}

/// The largest `lnds(keys, j)` over `j < m` with `keys[j] <= keys[i]`
/// (0 when there is none).
pub open spec fn best_before(keys: Seq<u64>, i: int, m: int) -> nat
    decreases i, m,
{
    if m <= 0 || m > i {
        0
    } else {
        let rest = best_before(keys, i, m - 1);
        let here = if keys[m - 1] <= keys[i] {
            lnds(keys, m - 1)
        } else {
            0
        };
        if here > rest {
            here
        } else {
            rest
        }
    }
}

/// The first `j < m` with `keys[j] <= keys[i]` and `lnds(keys, j) == v`,
/// or -1.
pub open spec fn first_with(keys: Seq<u64>, i: int, m: int, v: nat) -> int
    decreases m,
{
    if m <= 0 {
        -1
    } else {
        let p = first_with(keys, i, m - 1, v);
        if p >= 0 {
            p
        } else if keys[m - 1] <= keys[i] && lnds(keys, m - 1) == v {
            m - 1
        } else {
            -1
        }
    }
}

/// The predecessor of `i` on its chosen longest run: the first earlier
/// position that extends to `i` with the best length, or -1.
pub open spec fn parent(keys: Seq<u64>, i: int) -> int {
    first_with(keys, i, i, best_before(keys, i, i))
}

/// The chosen longest non-decreasing run ending at `k`, as positions.
pub open spec fn chain(keys: Seq<u64>, k: int) -> Seq<int>
    decreases k + 1,
{
    if k < 0 {
        seq![]
    } else {
        let p = parent(keys, k);
        if p < k {
            chain(keys, p).push(k)
        } else {
            seq![k]
        }
    }
}

/// The first position among the first `m` whose run length is largest.
pub open spec fn first_max(keys: Seq<u64>, m: int) -> int
    decreases m,
{
    if m <= 1 {
        0
    } else {
        let b = first_max(keys, m - 1);
        if lnds(keys, m - 1) > lnds(keys, b) {
            m - 1
        } else {
            b
        }
    }
}

/// The positions kept as they are: the chosen longest run of all of `keys`.
pub open spec fn kept_mask(keys: Seq<u64>) -> Seq<bool> {
    let top = chain(keys, first_max(keys, keys.len() as int));
    Seq::new(keys.len(), |k: int| top.contains(k))
}

/// The last kept position before `k`, or -1.
pub open spec fn prev_kept(mask: Seq<bool>, k: int) -> int
    decreases k,
{
    if k <= 0 {
        -1
    } else if mask[k - 1] {
        k - 1
    } else {
        prev_kept(mask, k - 1)
    }
}

/// The first kept position after `k`, or `mask.len()`.
pub open spec fn next_kept(mask: Seq<bool>, k: int) -> int
    decreases mask.len() - k,
{
    if k + 1 >= mask.len() {
        mask.len() as int
    } else if mask[k + 1] {
        k + 1
    } else {
        next_kept(mask, k + 1)
    }
}

/// Where the repaired timestamp at one position comes from.
#[derive(Clone, Copy, Debug, PartialEq, Eq, Structural)]
pub enum TimestampFix {
    /// The timestamp stays as it is.
    Keep,
    /// The timestamp becomes the one at the given position.
    Copy(usize),
    /// The timestamp becomes `l + (r - l) / (count + 1) * step`, where `l`
    /// and `r` are the timestamps at `left` and `right`.
    Between { left: usize, right: usize, step: usize, count: usize },
}

/// The repair of one non-kept position from its kept neighbours `l` (-1
/// when none) and `r` (`n` when none), at distances counted within the run
/// of `r - l - 1` non-kept positions between them.
pub open spec fn fix_from(l: int, r: int, k: int, n: int) -> TimestampFix {
    let count = r - l - 1;
    if count <= 2 {
        if l >= 0 && r < n {
            if k - l <= r - k {
                TimestampFix::Copy(l as usize)
            } else {
                TimestampFix::Copy(r as usize)
            }
        } else if l >= 0 {
            TimestampFix::Copy(l as usize)
        } else if r < n {
            TimestampFix::Copy(r as usize)
        } else {
            TimestampFix::Keep
        }
    } else if l >= 0 && r < n {
        TimestampFix::Between {
            left: l as usize,
            right: r as usize,
            step: (k - l) as usize,
            count: count as usize,
        }
    } else if l >= 0 {
        TimestampFix::Copy(l as usize)
    } else if r < n {
        TimestampFix::Copy(r as usize)
    } else {
        TimestampFix::Keep
    }
}

/// The repair of position `k`: kept positions (and all of a sequence of at
/// most one timestamp) stay; a short run of at most two non-kept positions
/// copies the nearer kept neighbour (the left one on a tie); a longer run
/// between two kept neighbours is spread evenly between them; a run with a
/// kept neighbour on one side only copies it.
pub open spec fn spec_fix(keys: Seq<u64>, k: int) -> TimestampFix {
    let mask = kept_mask(keys);
    if keys.len() <= 1 || mask[k] {
        TimestampFix::Keep
    } else {
        fix_from(prev_kept(mask, k), next_kept(mask, k), k, keys.len() as int)
    }
}


/// `idx` picks a non-decreasing run of `keys`: positions in range, strictly
/// increasing, with keys that never go down.
pub open spec fn is_run(keys: Seq<u64>, idx: Seq<int>) -> bool {
    &&& forall|a: int| 0 <= a < idx.len() ==> 0 <= #[trigger] idx[a] < keys.len()
    &&& forall|a: int, b: int|
        0 <= a < b < idx.len() ==> #[trigger] idx[a] < #[trigger] idx[b] && keys[idx[a]]
            <= keys[idx[b]]
}

proof fn lemma_lnds_bounds(keys: Seq<u64>, i: int)
    requires
        0 <= i,
    ensures
        1 <= lnds(keys, i) <= i + 1,
    decreases i, i + 1,
{
    lemma_best_bound(keys, i, i);
}

proof fn lemma_best_bound(keys: Seq<u64>, i: int, m: int)
    requires
        0 <= m <= i,
    ensures
        best_before(keys, i, m) <= m,
    decreases i, m,
{
    if m > 0 {
        lemma_best_bound(keys, i, m - 1);
        lemma_lnds_bounds(keys, m - 1);
    }
}

proof fn lemma_best_ge(keys: Seq<u64>, i: int, m: int, j: int)
    requires
        0 <= j < m <= i,
        keys[j] <= keys[i],
    ensures
        best_before(keys, i, m) >= lnds(keys, j),
    decreases m,
{
    if j < m - 1 {
        lemma_best_ge(keys, i, m - 1, j);
    }
}

proof fn lemma_first_with_props(keys: Seq<u64>, i: int, m: int, v: nat)
    requires
        0 <= m,
    ensures
        first_with(keys, i, m, v) >= -1,
        first_with(keys, i, m, v) < m,
        first_with(keys, i, m, v) >= 0 ==> keys[first_with(keys, i, m, v)] <= keys[i] && lnds(
            keys,
            first_with(keys, i, m, v),
        ) == v,
    decreases m,
{
    if m > 0 {
        lemma_first_with_props(keys, i, m - 1, v);
    }
}

proof fn lemma_first_with_none(keys: Seq<u64>, i: int, m: int, v: nat)
    requires
        0 <= m <= i,
        v > best_before(keys, i, m),
    ensures
        first_with(keys, i, m, v) == -1,
    decreases m,
{
    if m > 0 {
        lemma_first_with_none(keys, i, m - 1, v);
    }
}

proof fn lemma_best_witness(keys: Seq<u64>, i: int, m: int)
    requires
        0 <= m <= i,
        best_before(keys, i, m) > 0,
    ensures
        first_with(keys, i, m, best_before(keys, i, m)) >= 0,
    decreases m,
{
    let rest = best_before(keys, i, m - 1);
    let here = if keys[m - 1] <= keys[i] {
        lnds(keys, m - 1)
    } else {
        0
    };
    if here > rest {
        lemma_first_with_none(keys, i, m - 1, here);
    } else {
        lemma_best_witness(keys, i, m - 1);
    }
}

/// Facts on the predecessor of `i`: it comes before `i`, and when there is
/// one it extends to `i` with one less than the run length at `i`.
proof fn lemma_parent(keys: Seq<u64>, i: int)
    requires
        0 <= i,
    ensures
        -1 <= parent(keys, i) < i,
        parent(keys, i) == -1 <==> lnds(keys, i) == 1,
        parent(keys, i) >= 0 ==> keys[parent(keys, i)] <= keys[i] && lnds(keys, parent(keys, i))
            + 1 == lnds(keys, i),
{
    lemma_first_with_props(keys, i, i, best_before(keys, i, i));
    if best_before(keys, i, i) > 0 {
        lemma_best_witness(keys, i, i);
    } else {
        let p = first_with(keys, i, i, 0);
        if p >= 0 {
            lemma_lnds_bounds(keys, p);
        }
    }
}

proof fn lemma_chain(keys: Seq<u64>, k: int)
    requires
        0 <= k < keys.len(),
    ensures
        chain(keys, k).len() == lnds(keys, k),
        chain(keys, k).len() >= 1,
        chain(keys, k).last() == k,
        is_run(keys, chain(keys, k)),
    decreases k,
{
    lemma_parent(keys, k);
    let p = parent(keys, k);
    if p >= 0 {
        lemma_chain(keys, p);
        let c = chain(keys, p);
        let d = c.push(k);
        assert(chain(keys, k) == d);
        assert forall|a: int, b: int| 0 <= a < b < d.len() implies #[trigger] d[a] < #[trigger] d[b]
            && keys[d[a]] <= keys[d[b]] by {
            if b < c.len() {
                assert(d[a] == c[a] && d[b] == c[b]);
            } else if a < c.len() - 1 {
                assert(c[a] < c[c.len() - 1] && keys[c[a]] <= keys[c[c.len() - 1]]);
            }
        }
    } else {
        assert(chain(keys, -1) =~= Seq::<int>::empty());
        assert(chain(keys, k) =~= seq![k]);
    }
}

proof fn lemma_run_bounded(keys: Seq<u64>, idx: Seq<int>)
    requires
        is_run(keys, idx),
        idx.len() > 0,
    ensures
        idx.len() <= lnds(keys, idx.last()),
    decreases idx.len(),
{
    let e = idx.last();
    assert(0 <= idx[idx.len() - 1] < keys.len());
    lemma_lnds_bounds(keys, e);
    if idx.len() > 1 {
        let rest = idx.drop_last();
        assert forall|a: int, b: int| 0 <= a < b < rest.len() implies #[trigger] rest[a]
            < #[trigger] rest[b] && keys[rest[a]] <= keys[rest[b]] by {
            assert(idx[a] < idx[b] && keys[idx[a]] <= keys[idx[b]]);
        }
        assert forall|a: int| 0 <= a < rest.len() implies 0 <= #[trigger] rest[a] < keys.len() by {
            assert(0 <= idx[a] < keys.len());
        }
        lemma_run_bounded(keys, rest);
        let f = rest.last();
        assert(idx[idx.len() - 2] < idx[idx.len() - 1] && keys[idx[idx.len() - 2]]
            <= keys[idx[idx.len() - 1]]);
        lemma_best_ge(keys, e, e, f);
    }
}

proof fn lemma_first_max(keys: Seq<u64>, m: int)
    requires
        1 <= m,
    ensures
        0 <= first_max(keys, m) < m,
        forall|j: int| 0 <= j < m ==> #[trigger] lnds(keys, j) <= lnds(keys, first_max(keys, m)),
    decreases m,
{
    if m > 1 {
        lemma_first_max(keys, m - 1);
    }
}


proof fn lemma_prev_kept(mask: Seq<bool>, i: int, k: int)
    requires
        0 <= i <= k < mask.len(),
        forall|t: int| i <= t < k ==> !#[trigger] mask[t],
        i == 0 || mask[i - 1],
    ensures
        prev_kept(mask, k) == i - 1,
    decreases k,
{
    if k > i {
        lemma_prev_kept(mask, i, k - 1);
    }
}

proof fn lemma_next_kept(mask: Seq<bool>, k: int, j: int)
    requires
        0 <= k < j <= mask.len(),
        forall|t: int| k < t < j ==> !#[trigger] mask[t],
        j == mask.len() || mask[j],
    ensures
        next_kept(mask, k) == j,
    decreases mask.len() - k,
{
    if k + 1 < mask.len() && !mask[k + 1] {
        lemma_next_kept(mask, k + 1, j);
    }
}

/// An optional position as an integer, -1 standing for none.
pub open spec fn opt_pos(o: Option<usize>) -> int {
    match o {
        Some(x) => x as int,
        None => -1,
    }
}

/// The repair of position `k` between the kept neighbour `l` (none when
/// `None`) and `r` (none when `r == n`).
fn fix_at(l: Option<usize>, r: usize, k: usize, n: usize) -> (f: TimestampFix)
    requires
        k < r <= n,
        l matches Some(x) ==> x < k,
    ensures
        f == fix_from(opt_pos(l), r as int, k as int, n as int),
{
    let count: usize = match l {
        Some(x) => r - x - 1,
        None => r,
    };
    match l {
        Some(x) => {
            if count <= 2 {
                if r < n {
                    if k - x <= r - k {
                        TimestampFix::Copy(x)
                    } else {
                        TimestampFix::Copy(r)
                    }
                } else {
                    TimestampFix::Copy(x)
                }
            } else if r < n {
                TimestampFix::Between { left: x, right: r, step: k - x, count }
            } else {
                TimestampFix::Copy(x)
            }
        },
        None => {
            if r < n {
                TimestampFix::Copy(r)
            } else {
                TimestampFix::Keep
            }
        },
    }
}

/// The repair plan for timestamps whose order is given by `keys`: one
/// entry per position (see `spec_fix`).
pub fn timestamp_repair_plan(keys: &Vec<u64>) -> (r: Vec<TimestampFix>)
    ensures
        r.len() == keys.len(),
        forall|k: int| 0 <= k < keys.len() ==> #[trigger] r[k] == spec_fix(keys@, k),
{
    let n = keys.len();
    if n <= 1 {
        let mut out: Vec<TimestampFix> = Vec::new();
        for k in 0..n
            invariant
                out.len() == k,
                n == keys.len(),
                n <= 1,
                forall|t: int| 0 <= t < k ==> #[trigger] out[t] == spec_fix(keys@, t),
        {
            out.push(TimestampFix::Keep);
        }
        return out;
    }
    let ghost ks = keys@;
    let mut dp: Vec<usize> = Vec::new();
    let mut par: Vec<Option<usize>> = Vec::new();
    for i in 0..n
        invariant
            n == keys.len(),
            ks == keys@,
            dp.len() == i,
            par.len() == i,
            forall|t: int| 0 <= t < i ==> #[trigger] dp[t] == lnds(ks, t),
            forall|t: int| 0 <= t < i ==> #[trigger] opt_pos(par[t]) == parent(ks, t),
    {
        let mut best: usize = 0;
        let mut p: Option<usize> = None;
        for j in 0..i
            invariant
                n == keys.len(),
                ks == keys@,
                i < n,
                dp.len() == i,
                forall|t: int| 0 <= t < i ==> #[trigger] dp[t] == lnds(ks, t),
                best == best_before(ks, i as int, j as int),
                opt_pos(p) == first_with(ks, i as int, j as int, best as nat),
        {
            proof {
                lemma_first_with_props(ks, i as int, j as int, best as nat);
                if best > 0 {
                    lemma_best_witness(ks, i as int, j as int);
                }
            }
            if keys[j] <= keys[i] && dp[j] > best {
                proof {
                    lemma_first_with_none(ks, i as int, j as int, lnds(ks, j as int));
                }
                best = dp[j];
                p = Some(j);
            }
        }
        proof {
            lemma_best_bound(ks, i as int, i as int);
        }
        dp.push(best + 1);
        par.push(p);
    }
    let mut max_idx: usize = 0;
    for i in 1..n
        invariant
            n == keys.len(),
            ks == keys@,
            dp.len() == n,
            forall|t: int| 0 <= t < n ==> #[trigger] dp[t] == lnds(ks, t),
            max_idx == first_max(ks, i as int),
    {
        proof {
            lemma_first_max(ks, i as int);
        }
        if dp[i] > dp[max_idx] {
            max_idx = i;
        }
    }
    proof {
        lemma_first_max(ks, n as int);
    }
    let mut kept: Vec<bool> = Vec::new();
    for k in 0..n
        invariant
            kept.len() == k,
            forall|t: int| 0 <= t < k ==> !#[trigger] kept[t],
    {
        kept.push(false);
    }
    let ghost top = chain(ks, max_idx as int);
    let ghost mut marked: Seq<int> = seq![];
    let mut cur: Option<usize> = Some(max_idx);
    assert(chain(ks, max_idx as int) + marked =~= top);
    while cur.is_some()
        invariant
            n == keys.len(),
            ks == keys@,
            par.len() == n,
            forall|t: int| 0 <= t < n ==> #[trigger] opt_pos(par[t]) == parent(ks, t),
            kept.len() == n,
            -1 <= opt_pos(cur) < n,
            chain(ks, opt_pos(cur)) + marked == top,
            forall|t: int| 0 <= t < n ==> #[trigger] kept[t] == marked.contains(t),
        decreases opt_pos(cur) + 1,
    {
        let c = cur.unwrap();
        proof {
            lemma_parent(ks, c as int);
            let q = parent(ks, c as int);
            assert(chain(ks, c as int) == chain(ks, q).push(c as int));
            assert(chain(ks, q) + (seq![c as int] + marked) =~= chain(ks, c as int) + marked);
        }
        kept.set(c, true);
        proof {
            let prev = marked;
            marked = seq![c as int] + prev;
            assert forall|t: int| 0 <= t < n implies #[trigger] kept[t] == marked.contains(t) by {
                if t != c {
                    if prev.contains(t) {
                        let w = choose|w: int| 0 <= w < prev.len() && prev[w] == t;
                        assert(marked[w + 1] == t);
                    }
                    if marked.contains(t) {
                        let w = choose|w: int| 0 <= w < marked.len() && marked[w] == t;
                        assert(prev[w - 1] == t);
                    }
                } else {
                    assert(marked[0] == c);
                }
            }
        }
        cur = par[c];
    }
    assert(chain(ks, -1) =~= Seq::<int>::empty());
    assert(marked =~= top);
    assert forall|t: int| 0 <= t < n implies #[trigger] kept@[t] == kept_mask(ks)[t] by {}
    let mut out: Vec<TimestampFix> = Vec::new();
    let mut i: usize = 0;
    while i < n
        invariant
            n == keys.len(),
            n >= 2,
            ks == keys@,
            kept.len() == n,
            kept@ =~= kept_mask(ks),
            i <= n,
            out.len() == i,
            forall|t: int| 0 <= t < i ==> #[trigger] out[t] == spec_fix(ks, t),
            i < n && !kept[i as int] ==> (i == 0 || kept[i - 1]),
        decreases n - i,
    {
        if kept[i] {
            out.push(TimestampFix::Keep);
            i = i + 1;
        } else {
            let mut j = i + 1;
            while j < n && !kept[j]
                invariant
                    kept.len() == n,
                    i < j <= n,
                    forall|t: int| i <= t < j ==> !#[trigger] kept[t],
                decreases n - j,
            {
                j = j + 1;
            }
            let l: Option<usize> = if i > 0 {
                Some(i - 1)
            } else {
                None
            };
            let mut k = i;
            while k < j
                invariant
                    n == keys.len(),
                    n >= 2,
                    ks == keys@,
                    kept.len() == n,
                    kept@ =~= kept_mask(ks),
                    i <= k <= j <= n,
                    forall|t: int| i <= t < j ==> !#[trigger] kept[t],
                    j == n || kept[j as int],
                    i == 0 || kept[i - 1],
                    l == (if i > 0 { Some((i - 1) as usize) } else { None::<usize> }),
                    out.len() == k,
                    forall|t: int| 0 <= t < k ==> #[trigger] out[t] == spec_fix(ks, t),
                decreases j - k,
            {
                proof {
                    lemma_prev_kept(kept@, i as int, k as int);
                    lemma_next_kept(kept@, k as int, j as int);
                }
                let f = fix_at(l, j, k, n);
                out.push(f);
                k = k + 1;
            }
            i = j;
        }
    }
    out
}


/// The kept positions form a non-decreasing run of the timestamps, and no
/// non-decreasing run of them is longer.
pub proof fn law_kept_run_is_longest(keys: Seq<u64>, idx: Seq<int>)
    requires
        keys.len() >= 1,
        is_run(keys, idx),
    ensures
        is_run(keys, chain(keys, first_max(keys, keys.len() as int))),
        idx.len() <= chain(keys, first_max(keys, keys.len() as int)).len(),
        forall|k: int|
            0 <= k < keys.len() ==> #[trigger] kept_mask(keys)[k] == chain(
                keys,
                first_max(keys, keys.len() as int),
            ).contains(k),
{
    let n = keys.len() as int;
    lemma_first_max(keys, n);
    let m = first_max(keys, n);
    lemma_chain(keys, m);
    if idx.len() > 0 {
        assert(0 <= idx[idx.len() - 1] < keys.len());
        lemma_run_bounded(keys, idx);
    }
}

proof fn lemma_sorted_lnds(keys: Seq<u64>, i: int)
    requires
        0 <= i < keys.len(),
        forall|a: int, b: int| 0 <= a < b < keys.len() ==> keys[a] <= keys[b],
    ensures
        lnds(keys, i) == i + 1,
    decreases i, i + 1,
{
    lemma_sorted_best(keys, i, i);
}

proof fn lemma_sorted_best(keys: Seq<u64>, i: int, m: int)
    requires
        0 <= m <= i < keys.len(),
        forall|a: int, b: int| 0 <= a < b < keys.len() ==> keys[a] <= keys[b],
    ensures
        best_before(keys, i, m) == m,
    decreases i, m,
{
    if m > 0 {
        lemma_sorted_best(keys, i, m - 1);
        lemma_sorted_lnds(keys, m - 1);
        assert(keys[m - 1] <= keys[i]);
    }
}

proof fn lemma_sorted_first_with(keys: Seq<u64>, i: int, m: int, v: nat)
    requires
        0 <= m <= i < keys.len(),
        forall|a: int, b: int| 0 <= a < b < keys.len() ==> keys[a] <= keys[b],
    ensures
        first_with(keys, i, m, v) == (if 1 <= v <= m {
            v - 1
        } else {
            -1
        }),
    decreases m,
{
    if m > 0 {
        lemma_sorted_first_with(keys, i, m - 1, v);
        lemma_sorted_lnds(keys, m - 1);
        assert(keys[m - 1] <= keys[i]);
    }
}

proof fn lemma_sorted_chain(keys: Seq<u64>, k: int)
    requires
        0 <= k < keys.len(),
        forall|a: int, b: int| 0 <= a < b < keys.len() ==> keys[a] <= keys[b],
    ensures
        chain(keys, k) =~= Seq::new((k + 1) as nat, |t: int| t),
    decreases k,
{
    lemma_sorted_best(keys, k, k);
    lemma_sorted_first_with(keys, k, k, k as nat);
    if k > 0 {
        lemma_sorted_chain(keys, k - 1);
    } else {
        assert(chain(keys, -1) =~= Seq::<int>::empty());
    }
}

proof fn lemma_sorted_first_max(keys: Seq<u64>, m: int)
    requires
        1 <= m <= keys.len(),
        forall|a: int, b: int| 0 <= a < b < keys.len() ==> keys[a] <= keys[b],
    ensures
        first_max(keys, m) == m - 1,
    decreases m,
{
    if m > 1 {
        lemma_sorted_first_max(keys, m - 1);
        lemma_sorted_lnds(keys, m - 1);
        lemma_sorted_lnds(keys, m - 2);
    }
}

/// Timestamps that never go down are left exactly as they are.
pub proof fn law_sorted_timestamps_are_kept(keys: Seq<u64>)
    requires
        forall|a: int, b: int| 0 <= a < b < keys.len() ==> keys[a] <= keys[b],
    ensures
        forall|k: int| 0 <= k < keys.len() ==> #[trigger] spec_fix(keys, k) == TimestampFix::Keep,
{
    let n = keys.len() as int;
    if n >= 1 {
        lemma_sorted_first_max(keys, n);
        lemma_sorted_chain(keys, n - 1);
        assert forall|k: int| 0 <= k < n implies #[trigger] spec_fix(keys, k) == TimestampFix::Keep by {
            let top = chain(keys, n - 1);
            assert(top[k] == k);
            assert(kept_mask(keys)[k]);
        }
    }
}


proof fn lemma_prev_none(mask: Seq<bool>, k: int, t: int)
    requires
        0 <= t < k <= mask.len(),
        prev_kept(mask, k) == -1,
    ensures
        !mask[t],
    decreases k,
{
    if t < k - 1 {
        lemma_prev_none(mask, k - 1, t);
    }
}

proof fn lemma_next_none(mask: Seq<bool>, k: int, t: int)
    requires
        0 <= k < t < mask.len(),
        next_kept(mask, k) == mask.len(),
    ensures
        !mask[t],
    decreases mask.len() - k,
{
    if t > k + 1 {
        lemma_next_none(mask, k + 1, t);
    }
}

proof fn lemma_kept_ranges(mask: Seq<bool>, k: int)
    requires
        0 <= k < mask.len(),
    ensures
        -1 <= prev_kept(mask, k) < k,
        k < next_kept(mask, k) <= mask.len(),
    decreases mask.len() - k,
{
    lemma_prev_range(mask, k);
    if k + 1 < mask.len() && !mask[k + 1] {
        lemma_kept_ranges(mask, k + 1);
    }
}

proof fn lemma_prev_range(mask: Seq<bool>, k: int)
    requires
        0 <= k,
    ensures
        -1 <= prev_kept(mask, k) < k,
    decreases k,
{
    if k > 0 {
        lemma_prev_range(mask, k - 1);
    }
}

/// Of two or more timestamps, exactly the kept ones stay as they are:
/// every other one is rebuilt from a kept neighbour.
pub proof fn law_only_kept_timestamps_stay(keys: Seq<u64>, k: int)
    requires
        keys.len() >= 2,
        0 <= k < keys.len(),
    ensures
        spec_fix(keys, k) == TimestampFix::Keep <==> kept_mask(keys)[k],
{
    let n = keys.len() as int;
    let mask = kept_mask(keys);
    if !mask[k] {
        lemma_first_max(keys, n);
        let m = first_max(keys, n);
        lemma_chain(keys, m);
        let top = chain(keys, m);
        assert(top[top.len() - 1] == m);
        assert(mask[m]);
        lemma_kept_ranges(mask, k);
        if prev_kept(mask, k) == -1 && next_kept(mask, k) == n {
            if m < k {
                lemma_prev_none(mask, k, m);
            } else {
                lemma_next_none(mask, k, m);
            }
        }
    }
}


/// The exact repaired value at position `k`, in units of the order keys,
/// as a fraction `(numerator, denominator)`: a kept or copied timestamp is
/// the key itself; a spread one lies `step / (count + 1)` of the way from
/// the left key to the right one.
pub open spec fn repaired(keys: Seq<u64>, k: int) -> (int, int) {
    match spec_fix(keys, k) {
        TimestampFix::Keep => (keys[k] as int, 1),
        TimestampFix::Copy(j) => (keys[j as int] as int, 1),
        TimestampFix::Between { left, right, step, count } => (
            keys[left as int] * (count + 1) + (keys[right as int] - keys[left as int]) * step,
            count + 1,
        ),
    }
}

/// Whether fraction `a` is at most fraction `b` (positive denominators).
pub open spec fn frac_le(a: (int, int), b: (int, int)) -> bool {
    a.0 * b.1 <= b.0 * a.1
}

proof fn lemma_frac_chain(na: int, da: int, k: int, nb: int, db: int)
    by (nonlinear_arith)
    requires
        da > 0,
        db > 0,
        na <= k * da,
        k * db <= nb,
    ensures
        na * db <= nb * da,
{
}

proof fn lemma_between_bounds(kl: int, kr: int, s: int, c: int)
    by (nonlinear_arith)
    requires
        kl <= kr,
        1 <= s <= c,
    ensures
        kl * (c + 1) <= kl * (c + 1) + (kr - kl) * s,
        kl * (c + 1) + (kr - kl) * s <= kr * (c + 1),
{
}

proof fn lemma_between_mono(kl: int, kr: int, sa: int, sb: int, c: int)
    by (nonlinear_arith)
    requires
        kl <= kr,
        sa <= sb,
        c >= 0,
    ensures
        (kl * (c + 1) + (kr - kl) * sa) * (c + 1) <= (kl * (c + 1) + (kr - kl) * sb) * (c + 1),
{
}

proof fn lemma_prev_props(mask: Seq<bool>, k: int)
    requires
        0 <= k <= mask.len(),
    ensures
        -1 <= prev_kept(mask, k) < k || (k == 0 && prev_kept(mask, k) == -1),
        prev_kept(mask, k) >= 0 ==> mask[prev_kept(mask, k)],
        forall|t: int| prev_kept(mask, k) < t < k ==> !#[trigger] mask[t],
    decreases k,
{
    if k > 0 && !mask[k - 1] {
        lemma_prev_props(mask, k - 1);
    }
}

proof fn lemma_next_props(mask: Seq<bool>, k: int)
    requires
        0 <= k < mask.len(),
    ensures
        k < next_kept(mask, k) <= mask.len(),
        next_kept(mask, k) < mask.len() ==> mask[next_kept(mask, k)],
        forall|t: int| k < t < next_kept(mask, k) ==> !#[trigger] mask[t],
    decreases mask.len() - k,
{
    if k + 1 < mask.len() && !mask[k + 1] {
        lemma_next_props(mask, k + 1);
    }
}

proof fn lemma_kept_sorted(keys: Seq<u64>, a: int, b: int)
    requires
        0 <= a < b < keys.len(),
        kept_mask(keys)[a],
        kept_mask(keys)[b],
    ensures
        keys[a] <= keys[b],
{
    let n = keys.len() as int;
    law_kept_run_is_longest(keys, seq![]);
    let top = chain(keys, first_max(keys, n));
    assert(top.contains(a));
    assert(top.contains(b));
    let x = choose|x: int| 0 <= x < top.len() && top[x] == a;
    let y = choose|y: int| 0 <= y < top.len() && top[y] == b;
    if x < y {
        assert(top[x] < top[y] && keys[top[x]] <= keys[top[y]]);
    } else if x > y {
        assert(top[y] < top[x]);
    }
}

/// Bounds of the repaired value at `k`: a kept position holds its key; any
/// other lies at or above its kept left neighbour and at or below its kept
/// right neighbour, where they exist.
proof fn lemma_repaired_bounds(keys: Seq<u64>, k: int)
    requires
        2 <= keys.len() <= usize::MAX,
        0 <= k < keys.len(),
    ensures
        repaired(keys, k).1 >= 1,
        kept_mask(keys)[k] ==> repaired(keys, k) == (keys[k] as int, 1int),
        !kept_mask(keys)[k] && prev_kept(kept_mask(keys), k) >= 0 ==> keys[prev_kept(
            kept_mask(keys),
            k,
        )] * repaired(keys, k).1 <= repaired(keys, k).0,
        !kept_mask(keys)[k] && next_kept(kept_mask(keys), k) < keys.len() ==> repaired(keys, k).0
            <= keys[next_kept(kept_mask(keys), k)] * repaired(keys, k).1,
{
    let n = keys.len() as int;
    let mask = kept_mask(keys);
    if !mask[k] {
        lemma_prev_props(mask, k);
        lemma_next_props(mask, k);
        let l = prev_kept(mask, k);
        let r = next_kept(mask, k);
        let count = r - l - 1;
        if l >= 0 && r < n {
            lemma_kept_sorted(keys, l, r);
            if count > 2 {
                lemma_between_bounds(keys[l] as int, keys[r] as int, k - l, count);
            }
        }
    }
}

proof fn lemma_same_run(mask: Seq<bool>, a: int, b: int)
    requires
        0 <= a < b < mask.len(),
        !mask[a],
        !mask[b],
        next_kept(mask, a) >= b,
    ensures
        prev_kept(mask, a) == prev_kept(mask, b),
        next_kept(mask, a) == next_kept(mask, b),
{
    lemma_prev_props(mask, a);
    lemma_next_props(mask, a);
    let p = prev_kept(mask, a);
    let q = next_kept(mask, a);
    assert forall|t: int| p + 1 <= t < b implies !#[trigger] mask[t] by {
        if t > a {
            assert(t < q);
        }
    }
    lemma_prev_kept(mask, p + 1, b);
    lemma_next_kept(mask, b, q);
}

/// The repaired values never go down: at any two positions, the earlier
/// one is at most the later one.
pub proof fn law_repaired_values_never_go_down(keys: Seq<u64>, a: int, b: int)
    requires
        keys.len() <= usize::MAX,
        0 <= a < b < keys.len(),
    ensures
        frac_le(repaired(keys, a), repaired(keys, b)),
{
    let n = keys.len() as int;
    if n < 2 {
        return;
    }
    let mask = kept_mask(keys);
    let va = repaired(keys, a);
    let vb = repaired(keys, b);
    lemma_repaired_bounds(keys, a);
    lemma_repaired_bounds(keys, b);
    if mask[a] && mask[b] {
        lemma_kept_sorted(keys, a, b);
        assert(frac_le(va, vb));
    } else if mask[a] {
        lemma_prev_props(mask, b);
        let lb = prev_kept(mask, b);
        assert(a <= lb);
        if a < lb {
            lemma_kept_sorted(keys, a, lb);
        }
        lemma_frac_chain(va.0, va.1, keys[lb] as int, vb.0, vb.1);
        assert(frac_le(va, vb));
    } else if mask[b] {
        lemma_next_props(mask, a);
        let ra = next_kept(mask, a);
        assert(ra <= b);
        if ra < b {
            lemma_kept_sorted(keys, ra, b);
        }
        lemma_frac_chain(va.0, va.1, keys[ra] as int, vb.0, vb.1);
        assert(frac_le(va, vb));
    } else {
        lemma_next_props(mask, a);
        lemma_prev_props(mask, b);
        let ra = next_kept(mask, a);
        if ra < b {
            let lb = prev_kept(mask, b);
            assert(ra <= lb);
            if ra < lb {
                lemma_kept_sorted(keys, ra, lb);
            }
            assert(va.0 <= keys[ra] * va.1);
            assert(keys[lb] * vb.1 <= vb.0);
            assert(keys[ra] * vb.1 <= keys[lb] * vb.1) by (nonlinear_arith)
                requires
                    keys[ra] <= keys[lb],
                    vb.1 >= 1,
            ;
            lemma_frac_chain(va.0, va.1, keys[ra] as int, vb.0, vb.1);
            assert(frac_le(va, vb));
        } else {
            lemma_same_run(mask, a, b);
            let l = prev_kept(mask, a);
            let r = ra;
            lemma_kept_ranges(mask, a);
            let count = r - l - 1;
            assert(spec_fix(keys, a) == fix_from(l, r, a, n));
            assert(spec_fix(keys, b) == fix_from(l, r, b, n));
            if l >= 0 && r < n {
                lemma_kept_sorted(keys, l, r);
                if count > 2 {
                    lemma_between_mono(keys[l] as int, keys[r] as int, a - l, b - l, count);
                    assert(va == (keys[l] * (count + 1) + (keys[r] - keys[l]) * (a - l), count + 1));
                    assert(vb == (keys[l] * (count + 1) + (keys[r] - keys[l]) * (b - l), count + 1));
                    assert(frac_le(va, vb));
                } else {
                    if a - l > r - a {
                        assert(b - l > r - b);
                    }
                    assert(frac_le(va, vb));
                }
            } else {
                law_only_kept_timestamps_stay(keys, a);
                assert(spec_fix(keys, a) == spec_fix(keys, b));
                assert(va == vb);
                assert(frac_le(va, vb));
            }
        }
    }
}

/// Repairing twice changes nothing: timestamps whose order follows the
/// repaired values (order keys `again`) are all kept by a second repair.
pub proof fn law_repair_is_idempotent(keys: Seq<u64>, again: Seq<u64>)
    requires
        keys.len() <= usize::MAX,
        again.len() == keys.len(),
        forall|a: int, b: int|
            0 <= a < keys.len() && 0 <= b < keys.len() ==> (again[a] <= again[b] <==> frac_le(
                #[trigger] repaired(keys, a),
                #[trigger] repaired(keys, b),
            )),
    ensures
        forall|k: int| 0 <= k < again.len() ==> #[trigger] spec_fix(again, k) == TimestampFix::Keep,
{
    assert forall|a: int, b: int| 0 <= a < b < again.len() implies again[a] <= again[b] by {
        law_repaired_values_never_go_down(keys, a, b);
    }
    law_sorted_timestamps_are_kept(again);
}

/// A short run of at most two repaired timestamps between two kept ones
/// copies its nearer kept neighbour, the left one on a tie: for kept
/// positions `l < k < r` with nothing kept strictly between them, position
/// `k` copies `r` exactly when `r` is strictly nearer.
pub proof fn law_short_runs_copy_nearer_neighbour(keys: Seq<u64>, l: int, k: int, r: int)
    requires
        0 <= l < k < r < keys.len(),
        r - l - 1 <= 2,
        kept_mask(keys)[l],
        kept_mask(keys)[r],
        forall|t: int| l < t < r ==> !#[trigger] kept_mask(keys)[t],
    ensures
        r - k < k - l ==> spec_fix(keys, k) == TimestampFix::Copy(r as usize),
        k - l <= r - k ==> spec_fix(keys, k) == TimestampFix::Copy(l as usize),
{
    let mask = kept_mask(keys);
    assert(mask.len() == keys.len());
    assert(!mask[k]);
    lemma_prev_props(mask, k);
    lemma_next_props(mask, k);
    let p = prev_kept(mask, k);
    let q = next_kept(mask, k);
    if p < l {
        assert(!mask[l]);
    }
    if p > l {
        assert(!mask[p]);
    }
    if q > r {
        assert(!mask[r]);
    }
    if q < r {
        assert(!mask[q]);
    }
    assert(p == l);
    assert(q == r);
}

} // verus!

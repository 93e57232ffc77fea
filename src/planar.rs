use vstd::prelude::*;

verus! {

/// Sum of a sequence of counts.
pub open spec fn total(s: Seq<usize>) -> int
    decreases s.len(),
{
    if s.len() == 0 {
        0
    } else {
        total(s.drop_last()) + s.last()
    }
}

proof fn lemma_total_update(s: Seq<usize>, i: int, v: usize)
    requires
        0 <= i < s.len(),
    ensures
        total(s.update(i, v)) == total(s) - s[i] + v,
    decreases s.len(),
{
    let t = s.update(i, v);
    if i < s.len() - 1 {
        assert(t.drop_last() =~= s.drop_last().update(i, v));
        lemma_total_update(s.drop_last(), i, v);
    } else {
        assert(t.drop_last() =~= s.drop_last());
    }
}

proof fn lemma_total_zero(s: Seq<usize>)
    requires
        forall|i: int| 0 <= i < s.len() ==> s[i] == 0,
    ensures
        total(s) == 0,
    decreases s.len(),
{
    if s.len() > 0 {
        lemma_total_zero(s.drop_last());
    }
}

/// How many items were taken from a list of `len` items after `rounds` rounds in which every
/// non-empty list loses one.
pub open spec fn taken(len: int, rounds: int) -> int {
    if len < rounds { len } else { rounds }
}

/// `keep` is what is left of lists of `lens` items after `rounds` full rounds of removal and a
/// last round that stopped before list `stop`.
pub open spec fn rounds_split(lens: Seq<usize>, keep: Seq<usize>, rounds: int, stop: int) -> bool {
    &&& rounds >= 0
    &&& 0 <= stop <= lens.len()
    &&& keep.len() == lens.len()
    &&& forall|t: int| 0 <= t < lens.len() ==> #[trigger] keep[t] == lens[t] - taken(lens[t] as int, if t < stop { rounds + 1 } else { rounds })
}

/// Decimation to a budget: given how many triangles each view holds, how many each keeps
/// when triangles are removed one at a time, round-robin over the views starting with the
/// first, from the end of each list, until at most `limit` remain in all.
///
/// The counts kept sum to the smaller of the total and `limit`; each view keeps a prefix of
/// its list; every view lost as many as full rounds took, one more for the views before the
/// point where the last round stopped. So removal is fair: a view that keeps a triangle lost
/// at most one fewer than any other view, and no fewer than any later view.
pub fn decimation_counts(lens: &Vec<usize>, limit: usize) -> (keep: Vec<usize>)
    requires
        total(lens@) <= usize::MAX,
    ensures
        keep@.len() == lens@.len(),
        forall|i: int| 0 <= i < lens@.len() ==> #[trigger] keep@[i] <= lens@[i],
        total(keep@) == if total(lens@) <= limit { total(lens@) } else { limit as int },
        total(keep@) <= limit,
        forall|i: int, j: int| 0 <= i < lens@.len() && 0 <= j < lens@.len() && #[trigger] keep@[i] > 0
            ==> lens@[j] - #[trigger] keep@[j] <= lens@[i] - keep@[i] + 1,
        forall|i: int, j: int| 0 <= i < j < lens@.len() && #[trigger] keep@[i] > 0
            ==> lens@[j] - #[trigger] keep@[j] <= lens@[i] - keep@[i],
        exists|rounds: int, stop: int| #[trigger] rounds_split(lens@, keep@, rounds, stop),
{
    let m = lens.len();
    let mut keep: Vec<usize> = Vec::new();
    let mut sum: usize = 0;
    let mut i: usize = 0;
    while i < m
        invariant
            i <= m == lens@.len(),
            keep@ == lens@.subrange(0, i as int),
            sum == total(lens@.subrange(0, i as int)),
            total(lens@) <= usize::MAX,
        decreases m - i,
    {
        proof {
            lemma_total_prefix(lens@, i + 1);
            lemma_total_prefix_le(lens@, i + 1);
        }
        keep.push(lens[i]);
        sum = sum + lens[i];
        proof {
            assert(keep@ =~= lens@.subrange(0, i + 1));
        }
        i += 1;
    }
    proof {
        assert(lens@.subrange(0, m as int) =~= lens@);
    }
    let ghost mut rounds: int = 0;
    let ghost mut stop: int = 0;
    while sum > limit
        invariant
            keep@.len() == lens@.len() == m,
            sum == total(keep@),
            rounds >= 0,
            0 <= stop <= m,
            total(lens@) > limit ==> sum >= limit,
            total(lens@) <= limit ==> sum == total(lens@),
            forall|t: int| 0 <= t < m ==> #[trigger] keep@[t] == lens@[t] - taken(lens@[t] as int, if t < stop { rounds + 1 } else { rounds }),
            sum > limit ==> stop == 0,
        decreases sum,
    {
        let ghost start = sum;
        let mut t: usize = 0;
        proof {
            stop = m as int;
        }
        while t < m
            invariant
                keep@.len() == lens@.len() == m,
                sum == total(keep@),
                start > limit,
                sum <= start,
                sum >= limit,
                total(lens@) > limit,
                t <= m,
                rounds >= 0,
                0 <= stop <= m,
                sum > limit ==> stop == m,
                sum <= limit ==> stop <= t,
                forall|u: int| t <= u < m ==> #[trigger] keep@[u] == lens@[u] - taken(lens@[u] as int, rounds),
                forall|u: int| 0 <= u < t ==> #[trigger] keep@[u] == lens@[u] - taken(lens@[u] as int, if u < stop { rounds + 1 } else { rounds }),
                sum < start || forall|u: int| 0 <= u < t ==> #[trigger] keep@[u] == 0,
            decreases m - t,
        {
            if sum > limit && keep[t] > 0 {
                proof {
                    lemma_total_update(keep@, t as int, (keep@[t as int] - 1) as usize);
                }
                let k = keep[t] - 1;
                keep.set(t, k);
                sum = sum - 1;
                proof {
                    if sum <= limit {
                        stop = t + 1;
                    }
                }
            }
            t += 1;
        }
        proof {
            if sum == start {
                lemma_total_zero(keep@);
            }
            if sum > limit {
                rounds = rounds + 1;
                stop = 0;
            }
        }
    }
    proof {
        lemma_total_bound(lens@, keep@);
        assert forall|i: int, j: int| 0 <= i < lens@.len() && 0 <= j < lens@.len() && #[trigger] keep@[i] > 0
            implies lens@[j] - #[trigger] keep@[j] <= lens@[i] - keep@[i] + 1 by {
            assert(keep@[i] == lens@[i] - taken(lens@[i] as int, if i < stop { rounds + 1 } else { rounds }));
            assert(keep@[j] == lens@[j] - taken(lens@[j] as int, if j < stop { rounds + 1 } else { rounds }));
        }
        assert forall|i: int, j: int| 0 <= i < j < lens@.len() && #[trigger] keep@[i] > 0
            implies lens@[j] - #[trigger] keep@[j] <= lens@[i] - keep@[i] by {
            assert(keep@[i] == lens@[i] - taken(lens@[i] as int, if i < stop { rounds + 1 } else { rounds }));
            assert(keep@[j] == lens@[j] - taken(lens@[j] as int, if j < stop { rounds + 1 } else { rounds }));
        }
        assert(rounds_split(lens@, keep@, rounds, stop));
    }
    keep
}

proof fn lemma_total_prefix(s: Seq<usize>, k: int)
    requires
        0 < k <= s.len(),
    ensures
        total(s.subrange(0, k)) == total(s.subrange(0, k - 1)) + s[k - 1],
{
    assert(s.subrange(0, k).drop_last() =~= s.subrange(0, k - 1));
}

proof fn lemma_total_prefix_le(s: Seq<usize>, k: int)
    requires
        0 <= k <= s.len(),
    ensures
        total(s.subrange(0, k)) <= total(s),
    decreases s.len(),
{
    if k < s.len() {
        assert(s.drop_last().subrange(0, k) =~= s.subrange(0, k));
        lemma_total_prefix_le(s.drop_last(), k);
    } else {
        assert(s.subrange(0, k) =~= s);
    }
}

proof fn lemma_total_bound(a: Seq<usize>, b: Seq<usize>)
    requires
        a.len() == b.len(),
        forall|i: int| 0 <= i < a.len() ==> #[trigger] b[i] <= a[i],
    ensures
        total(b) <= total(a),
    decreases a.len(),
{
    if a.len() > 0 {
        lemma_total_bound(a.drop_last(), b.drop_last());
    }
}

/// Index of the first cut of largest filled area; `None` when no cut has any filled pixel.
pub fn best_cut(areas: &Vec<u64>) -> (r: Option<usize>)
    ensures
        match r {
            None => forall|i: int| 0 <= i < areas@.len() ==> areas@[i] == 0,
            Some(k) => {
                &&& k < areas@.len()
                &&& areas@[k as int] > 0
                &&& forall|i: int| 0 <= i < areas@.len() ==> areas@[i] <= areas@[k as int]
                &&& forall|i: int| 0 <= i < k ==> areas@[i] < areas@[k as int]
            },
        },
{
    let mut best: Option<usize> = None;
    let mut best_area: u64 = 0;
    let mut i: usize = 0;
    while i < areas.len()
        invariant
            i <= areas@.len(),
            match best {
                None => best_area == 0 && forall|j: int| 0 <= j < i ==> areas@[j] == 0,
                Some(k) => {
                    &&& k < i
                    &&& best_area == areas@[k as int]
                    &&& areas@[k as int] > 0
                    &&& forall|j: int| 0 <= j < i ==> areas@[j] <= areas@[k as int]
                    &&& forall|j: int| 0 <= j < k ==> areas@[j] < areas@[k as int]
                },
            },
        decreases areas@.len() - i,
    {
        if areas[i] > best_area {
            best = Some(i);
            best_area = areas[i];
        }
        i += 1;
    }
    best
}

} // verus!

use vstd::prelude::*;

verus! {

/// The entries of `bucket` marked eligible, in order.
pub open spec fn eligible_members(bucket: Seq<usize>, eligible: Seq<bool>) -> Seq<usize>
    decreases bucket.len(),
{
    if bucket.len() == 0 {
        Seq::empty()
    } else {
        let rest = eligible_members(bucket.drop_last(), eligible);
        if eligible[bucket.last() as int] {
            rest.push(bucket.last())
        } else {
            rest
        }
    }
}

/// Consecutive pairs (s[0], s[1]), (s[2], s[3]), … of `s`; a last entry
/// without a partner is left out.
pub open spec fn pair_up(s: Seq<usize>) -> Seq<(usize, usize)>
    decreases s.len(),
{
    if s.len() < 2 {
        Seq::empty()
    } else if s.len() % 2 == 1 {
        pair_up(s.drop_last())
    } else {
        pair_up(s.take(s.len() - 2)).push((s[s.len() - 2], s[s.len() - 1]))
    }
}

/// The mating pairs of the first `c` cells: in each cell, its eligible agents
/// paired off in the order the cell lists them.
pub open spec fn mating_pairs_spec(buckets: Seq<Seq<usize>>, eligible: Seq<bool>, c: int) -> Seq<
    (usize, usize),
>
    decreases c,
{
    if c <= 0 {
        Seq::empty()
    } else {
        mating_pairs_spec(buckets, eligible, c - 1) + pair_up(
            eligible_members(buckets[c - 1], eligible),
        )
    }
}

/// Every agent listed in `buckets` has an eligibility flag.
pub open spec fn buckets_within(buckets: Seq<Seq<usize>>, n: int) -> bool {
    forall|c: int, m: int|
        0 <= c < buckets.len() && 0 <= m < buckets[c].len() ==> #[trigger] buckets[c][m] < n
}

/// The contents of the buckets.
pub open spec fn bucket_views(buckets: Seq<Vec<usize>>) -> Seq<Seq<usize>> {
    buckets.map_values(|b: Vec<usize>| b@)
}

/// Pairs the agents that may reproduce this tick: in every cell, its
/// eligible agents (those whose energy reaches their threshold) are paired
/// off two by two in the order the cell lists them.
pub fn mating_pairs(buckets: &Vec<Vec<usize>>, eligible: &Vec<bool>) -> (pairs: Vec<(usize, usize)>)
    requires
        buckets_within(bucket_views(buckets@), eligible@.len() as int),
    ensures
        pairs@ == mating_pairs_spec(bucket_views(buckets@), eligible@, buckets@.len() as int),
{
    let mut pairs: Vec<(usize, usize)> = Vec::new();
    let mut c: usize = 0;
    while c < buckets.len()
        invariant
            c <= buckets@.len(),
            buckets_within(bucket_views(buckets@), eligible@.len() as int),
            pairs@ == mating_pairs_spec(bucket_views(buckets@), eligible@, c as int),
        decreases buckets.len() - c,
    {
        let bucket = &buckets[c];
        assert(bucket_views(buckets@)[c as int] == bucket@);
        let ghost done = pairs@;
        let mut pending: Option<usize> = None;
        let mut m: usize = 0;
        while m < bucket.len()
            invariant
                c < buckets@.len(),
                bucket == buckets@[c as int],
                m <= bucket@.len(),
                buckets_within(bucket_views(buckets@), eligible@.len() as int),
                done == mating_pairs_spec(bucket_views(buckets@), eligible@, c as int),
                pairs@ == done + pair_up(eligible_members(bucket@.take(m as int), eligible@)),
                pending == if eligible_members(bucket@.take(m as int), eligible@).len() % 2 == 1 {
                    Some(eligible_members(bucket@.take(m as int), eligible@).last())
                } else {
                    None::<usize>
                },
            decreases bucket.len() - m,
        {
            let k = bucket[m];
            let ghost before = eligible_members(bucket@.take(m as int), eligible@);
            proof {
                assert(bucket@.take(m + 1).drop_last() =~= bucket@.take(m as int));
                assert(bucket_views(buckets@)[c as int][m as int] < eligible@.len());
            }
            if eligible[k] {
                let ghost after = before.push(k);
                proof {
                    assert(after.drop_last() =~= before);
                }
                assert(eligible_members(bucket@.take(m + 1), eligible@) == after);
                match pending {
                    None => {
                        assert(pair_up(after) == pair_up(before));
                        pending = Some(k);
                    },
                    Some(p) => {
                        proof {
                            assert(after.take(after.len() - 2) =~= before.drop_last());
                            assert(pair_up(before) == pair_up(before.drop_last()));
                            assert(pair_up(after) == pair_up(before).push((p, k)));
                        }
                        pairs.push((p, k));
                        proof {
                            assert(pairs@ =~= done + pair_up(after));
                        }
                        pending = None;
                    },
                }
            } else {
                assert(eligible_members(bucket@.take(m + 1), eligible@) == before);
            }
            m = m + 1;
        }
        proof {
            assert(bucket@.take(m as int) =~= bucket@);
        }
        c = c + 1;
    }
    pairs
}


/// The pairs at position `i` of `pair_up(s)` are the entries `2i` and `2i + 1` of `s`.
proof fn lemma_pair_up_index(s: Seq<usize>)
    ensures
        pair_up(s).len() == s.len() / 2,
        forall|i: int|
            0 <= i < pair_up(s).len() ==> #[trigger] pair_up(s)[i] == (s[2 * i], s[2 * i + 1]),
    decreases s.len(),
{
    if s.len() < 2 {
    } else if s.len() % 2 == 1 {
        lemma_pair_up_index(s.drop_last());
    } else {
        let t = s.take(s.len() - 2);
        lemma_pair_up_index(t);
        assert forall|i: int| 0 <= i < pair_up(s).len() implies #[trigger] pair_up(s)[i] == (
            s[2 * i],
            s[2 * i + 1],
        ) by {
            if i < pair_up(t).len() {
                assert(pair_up(s)[i] == pair_up(t)[i]);
            }
        }
    }
}

/// Eligible members are eligible members of the bucket, listed without
/// repetition when the bucket lists none.
proof fn lemma_eligible_members(bucket: Seq<usize>, eligible: Seq<bool>)
    ensures
        forall|k: int|
            0 <= k < eligible_members(bucket, eligible).len() ==> {
                let a = #[trigger] eligible_members(bucket, eligible)[k];
                &&& bucket.contains(a)
                &&& eligible[a as int]
            },
        bucket.no_duplicates() ==> eligible_members(bucket, eligible).no_duplicates(),
    decreases bucket.len(),
{
    if bucket.len() > 0 {
        let rest = bucket.drop_last();
        lemma_eligible_members(rest, eligible);
        let em = eligible_members(bucket, eligible);
        let er = eligible_members(rest, eligible);
        assert forall|k: int| 0 <= k < em.len() implies {
            let a = #[trigger] em[k];
            &&& bucket.contains(a)
            &&& eligible[a as int]
        } by {
            if k < er.len() {
                let a = er[k];
                assert(rest.contains(a));
                let j = choose|j: int| 0 <= j < rest.len() && rest[j] == a;
                assert(bucket[j] == a);
            } else {
                assert(bucket[bucket.len() - 1] == bucket.last());
            }
        }
        if bucket.no_duplicates() {
            assert(rest.no_duplicates()) by {
                assert forall|i: int, j: int|
                    0 <= i < rest.len() && 0 <= j < rest.len() && i != j implies rest[i]
                    != rest[j] by {
                    assert(rest[i] == bucket[i] && rest[j] == bucket[j]);
                }
            }
            if eligible[bucket.last() as int] {
                assert forall|k: int| 0 <= k < er.len() implies er[k] != bucket.last() by {
                    let a = er[k];
                    assert(rest.contains(a));
                    let j = choose|j: int| 0 <= j < rest.len() && rest[j] == a;
                    assert(bucket[j] == a);
                    assert(j != bucket.len() - 1);
                }
            }
        }
    }
}

/// Every agent occurs in at most one bucket, and at most once in it.
pub open spec fn buckets_partition(buckets: Seq<Seq<usize>>) -> bool {
    &&& forall|c: int| 0 <= c < buckets.len() ==> (#[trigger] buckets[c]).no_duplicates()
    &&& forall|c1: int, c2: int, m1: int, m2: int|
        0 <= c1 < buckets.len() && 0 <= c2 < buckets.len() && c1 != c2 && 0 <= m1
            < buckets[c1].len() && 0 <= m2 < buckets[c2].len() ==> #[trigger] buckets[c1][m1]
            != #[trigger] buckets[c2][m2]
}

/// The agents of the pairs, first and second of each pair in turn.
pub open spec fn pair_agents(p: Seq<(usize, usize)>) -> Seq<usize>
    decreases p.len(),
{
    if p.len() == 0 {
        Seq::empty()
    } else {
        pair_agents(p.drop_last()).push(p.last().0).push(p.last().1)
    }
}

proof fn lemma_pair_agents_index(p: Seq<(usize, usize)>)
    ensures
        pair_agents(p).len() == 2 * p.len(),
        forall|i: int|
            0 <= i < p.len() ==> pair_agents(p)[2 * i] == (#[trigger] p[i]).0 && pair_agents(p)[2
                * i + 1] == p[i].1,
    decreases p.len(),
{
    if p.len() > 0 {
        lemma_pair_agents_index(p.drop_last());
        assert forall|i: int| 0 <= i < p.len() implies pair_agents(p)[2 * i] == (
        #[trigger] p[i]).0 && pair_agents(p)[2 * i + 1] == p[i].1 by {
            if i < p.len() - 1 {
                assert(p.drop_last()[i] == p[i]);
            }
        }
    }
}

/// Agent `x` stands in one of the first `c` buckets.
pub open spec fn in_some_bucket(buckets: Seq<Seq<usize>>, x: usize, c: int) -> bool {
    exists|d: int| 0 <= d < c && #[trigger] buckets[d].contains(x)
}

/// Facts about the pairs of the first `c` cells: both partners are
/// eligible, live in one bucket, and no agent occurs in two places.
proof fn lemma_mating_prefix(buckets: Seq<Seq<usize>>, eligible: Seq<bool>, c: int)
    requires
        0 <= c <= buckets.len(),
        buckets_partition(buckets),
    ensures
        pair_agents(mating_pairs_spec(buckets, eligible, c)).no_duplicates(),
        forall|k: int|
            0 <= k < pair_agents(mating_pairs_spec(buckets, eligible, c)).len() ==> in_some_bucket(
                buckets,
                #[trigger] pair_agents(mating_pairs_spec(buckets, eligible, c))[k],
                c,
            ),
        forall|i: int|
            0 <= i < mating_pairs_spec(buckets, eligible, c).len() ==> {
                let p = #[trigger] mating_pairs_spec(buckets, eligible, c)[i];
                &&& eligible[p.0 as int]
                &&& eligible[p.1 as int]
                &&& p.0 != p.1
                &&& exists|d: int|
                    0 <= d < c && #[trigger] buckets[d].contains(p.0) && buckets[d].contains(p.1)
            },
    decreases c,
{
    let all = mating_pairs_spec(buckets, eligible, c);
    lemma_pair_agents_index(all);
    if c > 0 {
        lemma_mating_prefix(buckets, eligible, c - 1);
        let prev = mating_pairs_spec(buckets, eligible, c - 1);
        let b = buckets[c - 1];
        let em = eligible_members(b, eligible);
        let new = pair_up(em);
        lemma_pair_up_index(em);
        lemma_eligible_members(b, eligible);
        lemma_pair_agents_index(prev);
        lemma_pair_agents_index(new);
        assert(all == prev + new);
        assert(pair_agents(all) =~= pair_agents(prev) + pair_agents(new)) by {
            lemma_pair_agents_concat(prev, new);
        }
        let pa = pair_agents(prev);
        let pn = pair_agents(new);
        // agents of the new cell are eligible members of its bucket
        assert forall|k: int| 0 <= k < pn.len() implies b.contains(#[trigger] pn[k]) && pn[k] == em[k] by {
            let i = k / 2;
            assert(k == 2 * i || k == 2 * i + 1);
            assert(new[i] == (em[2 * i], em[2 * i + 1]));
        }
        assert(pn.no_duplicates()) by {
            assert forall|i: int, j: int| 0 <= i < pn.len() && 0 <= j < pn.len() && i != j implies pn[i] != pn[j] by {
                assert(pn[i] == em[i] && pn[j] == em[j]);
            }
        }
        assert forall|k: int|
            0 <= k < pair_agents(mating_pairs_spec(buckets, eligible, c)).len() implies in_some_bucket(
                buckets,
                #[trigger] pair_agents(mating_pairs_spec(buckets, eligible, c))[k],
                c,
            ) by {
            let x = pair_agents(mating_pairs_spec(buckets, eligible, c))[k];
            if k < pa.len() {
                assert(x == pa[k]);
                assert(in_some_bucket(buckets, pa[k], c - 1));
                let d = choose|d: int| 0 <= d < c - 1 && #[trigger] buckets[d].contains(pa[k]);
                assert(buckets[d].contains(x));
                assert(0 <= d < c);
            } else {
                assert(x == pn[k - pa.len()]);
                assert(buckets[c - 1].contains(x));
            }
        }
        assert(pair_agents(all).no_duplicates()) by {
            let q = pair_agents(all);
            assert forall|i: int, j: int| 0 <= i < q.len() && 0 <= j < q.len() && i != j implies q[i] != q[j] by {
                if i < pa.len() && j < pa.len() {
                    assert(q[i] == pa[i] && q[j] == pa[j]);
                } else if i >= pa.len() && j >= pa.len() {
                    assert(q[i] == pn[i - pa.len()] && q[j] == pn[j - pa.len()]);
                } else {
                    let (u, w) = if i < pa.len() { (i, j) } else { (j, i) };
                    assert(q[u] == pa[u]);
                    assert(q[w] == pn[w - pa.len()]);
                    assert(in_some_bucket(buckets, pa[u], c - 1));
                    let d = choose|d: int| 0 <= d < c - 1 && #[trigger] buckets[d].contains(pa[u]);
                    let m1 = choose|m1: int| 0 <= m1 < buckets[d].len() && buckets[d][m1] == pa[u];
                    let m2 = choose|m2: int| 0 <= m2 < b.len() && b[m2] == pn[w - pa.len()];
                    assert(buckets[d][m1] != buckets[c - 1][m2]);
                }
            }
        }
        assert forall|i: int| 0 <= i < all.len() implies {
            let p = #[trigger] all[i];
            &&& eligible[p.0 as int]
            &&& eligible[p.1 as int]
            &&& p.0 != p.1
            &&& exists|d: int|
                0 <= d < c && #[trigger] buckets[d].contains(p.0) && buckets[d].contains(p.1)
        } by {
            if i < prev.len() {
                assert(all[i] == prev[i]);
                let p = prev[i];
                let d = choose|d: int|
                    0 <= d < c - 1 && #[trigger] buckets[d].contains(p.0) && buckets[d].contains(p.1);
                assert(buckets[d].contains(p.0));
            } else {
                let j = i - prev.len();
                assert(all[i] == new[j]);
                assert(new[j] == (em[2 * j], em[2 * j + 1]));
                assert(em[2 * j] != em[2 * j + 1]);
                assert(buckets[c - 1].contains(em[2 * j]));
                assert(buckets[c - 1].contains(em[2 * j + 1]));
            }
        }
    } else {
        assert(pair_agents(all).len() == 0);
    }
}

proof fn lemma_pair_agents_concat(a: Seq<(usize, usize)>, b: Seq<(usize, usize)>)
    ensures
        pair_agents(a + b) =~= pair_agents(a) + pair_agents(b),
    decreases b.len(),
{
    if b.len() > 0 {
        lemma_pair_agents_concat(a, b.drop_last());
        assert((a + b).drop_last() =~= a + b.drop_last());
    } else {
        assert(a + b =~= a);
    }
}

/// Reproduction pairs agents soundly: when every agent stands in exactly one
/// bucket, each pair joins two distinct eligible agents of one bucket, and
/// no agent is in two pairs, so an agent reproduces at most once per tick.
pub proof fn lemma_mating_pairs_sound(buckets: Seq<Seq<usize>>, eligible: Seq<bool>)
    requires
        buckets_partition(buckets),
    ensures
        forall|i: int|
            0 <= i < mating_pairs_spec(buckets, eligible, buckets.len() as int).len() ==> {
                let p = #[trigger] mating_pairs_spec(buckets, eligible, buckets.len() as int)[i];
                &&& eligible[p.0 as int]
                &&& eligible[p.1 as int]
                &&& p.0 != p.1
                &&& exists|d: int|
                    0 <= d < buckets.len() && #[trigger] buckets[d].contains(p.0)
                        && buckets[d].contains(p.1)
            },
        forall|i: int, j: int|
            0 <= i < mating_pairs_spec(buckets, eligible, buckets.len() as int).len() && 0 <= j
                < mating_pairs_spec(buckets, eligible, buckets.len() as int).len() && i != j ==> {
                let p = #[trigger] mating_pairs_spec(buckets, eligible, buckets.len() as int)[i];
                let q = #[trigger] mating_pairs_spec(buckets, eligible, buckets.len() as int)[j];
                &&& p.0 != q.0
                &&& p.0 != q.1
                &&& p.1 != q.0
                &&& p.1 != q.1
            },
{
    let n = buckets.len() as int;
    lemma_mating_prefix(buckets, eligible, n);
    let all = mating_pairs_spec(buckets, eligible, n);
    let pa = pair_agents(all);
    lemma_pair_agents_index(all);
    assert forall|i: int, j: int| 0 <= i < all.len() && 0 <= j < all.len() && i != j implies {
        let p = #[trigger] all[i];
        let q = #[trigger] all[j];
        &&& p.0 != q.0
        &&& p.0 != q.1
        &&& p.1 != q.0
        &&& p.1 != q.1
    } by {
        assert(pa[2 * i] == all[i].0 && pa[2 * i + 1] == all[i].1);
        assert(pa[2 * j] == all[j].0 && pa[2 * j + 1] == all[j].1);
    }
}

/// In every bucket, at most one eligible agent is left without a partner.
pub proof fn lemma_mating_pairs_maximal(bucket: Seq<usize>, eligible: Seq<bool>)
    ensures
        eligible_members(bucket, eligible).len() - 2 * pair_up(
            eligible_members(bucket, eligible),
        ).len() <= 1,
{
    lemma_pair_up_index(eligible_members(bucket, eligible));
}

} // verus!

//! Adjacent-pair statistics and pair merging over token sequences.
use vstd::prelude::*;

verus! {

/// Number of windows `(s[j], s[j + 1])` equal to `p`, overlapping windows included.
pub open spec fn pair_count(s: Seq<usize>, p: (usize, usize)) -> nat
    decreases s.len(),
{
    if s.len() < 2 {
        0
    } else {
        pair_count(s.drop_last(), p) + if s[s.len() - 2] == p.0 && s[s.len() - 1] == p.1 {
            1nat
        } else {
            0nat
        }
    }
}

/// `p` stands at some position of `s`.
pub open spec fn pair_occurs(s: Seq<usize>, p: (usize, usize)) -> bool {
    exists|j: int| 0 <= j < s.len() - 1 && #[trigger] s[j] == p.0 && s[j + 1] == p.1
}

/// A statistics table describes `s` exactly: each entry holds a distinct pair
/// that occurs in `s` with its number of windows, and every occurring pair has
/// an entry.
pub open spec fn stats_exact(stats: Seq<((usize, usize), usize)>, s: Seq<usize>) -> bool {
    &&& forall|k: int|
        0 <= k < stats.len() ==> #[trigger] stats[k].1 == pair_count(s, stats[k].0) && stats[k].1
            > 0
    &&& forall|k1: int, k2: int|
        0 <= k1 < stats.len() && 0 <= k2 < stats.len() && k1 != k2 ==> #[trigger] stats[k1].0
            != #[trigger] stats[k2].0
    &&& forall|p: (usize, usize)|
        #[trigger] pair_count(s, p) > 0 ==> exists|k: int| 0 <= k < stats.len() && stats[k].0 == p
}

/// Left-to-right, non-overlapping replacement of every `p` in `s` by `n`.
pub open spec fn merge_seq(s: Seq<usize>, p: (usize, usize), n: usize) -> Seq<usize>
    decreases s.len(),
{
    if s.len() == 0 {
        seq![]
    } else if s.len() >= 2 && s[0] == p.0 && s[1] == p.1 {
        seq![n] + merge_seq(s.skip(2), p, n)
    } else {
        seq![s[0]] + merge_seq(s.skip(1), p, n)
    }
}

pub proof fn lemma_count_le(s: Seq<usize>, p: (usize, usize))
    ensures
        pair_count(s, p) <= s.len(),
    decreases s.len(),
{
    if s.len() >= 2 {
        lemma_count_le(s.drop_last(), p);
    }
}

/// A positive count has a position, and a position gives a positive count.
pub proof fn lemma_count_occurs(s: Seq<usize>, p: (usize, usize))
    ensures
        pair_count(s, p) > 0 <==> pair_occurs(s, p),
    decreases s.len(),
{
    if s.len() >= 2 {
        let t = s.drop_last();
        lemma_count_occurs(t, p);
        if pair_occurs(t, p) {
            let j = choose|j: int| 0 <= j < t.len() - 1 && #[trigger] t[j] == p.0 && t[j + 1] == p.1;
            assert(s[j] == p.0 && s[j + 1] == p.1);
        }
        if pair_occurs(s, p) && !(s[s.len() - 2] == p.0 && s[s.len() - 1] == p.1) {
            let j = choose|j: int| 0 <= j < s.len() - 1 && #[trigger] s[j] == p.0 && s[j + 1] == p.1;
            assert(t[j] == p.0 && t[j + 1] == p.1);
        }
    }
}

/// Every id of a merged sequence is the new id or an id of the input.
pub proof fn lemma_merge_bounded(s: Seq<usize>, p: (usize, usize), n: usize, bound: nat)
    requires
        n < bound,
        forall|j: int| 0 <= j < s.len() ==> s[j] < bound,
    ensures
        forall|j: int|
            0 <= j < merge_seq(s, p, n).len() ==> #[trigger] merge_seq(s, p, n)[j] < bound,
    decreases s.len(),
{
    if s.len() >= 2 && s[0] == p.0 && s[1] == p.1 {
        let r = merge_seq(s.skip(2), p, n);
        lemma_merge_bounded(s.skip(2), p, n, bound);
        assert forall|j: int| 0 <= j < 1 + r.len() implies #[trigger] (seq![n] + r)[j] < bound by {
            if j > 0 {
                assert((seq![n] + r)[j] == r[j - 1]);
            }
        }
    } else if s.len() > 0 {
        let r = merge_seq(s.skip(1), p, n);
        lemma_merge_bounded(s.skip(1), p, n, bound);
        assert forall|j: int| 0 <= j < 1 + r.len() implies #[trigger] (seq![s[0]] + r)[j]
            < bound by {
            if j > 0 {
                assert((seq![s[0]] + r)[j] == r[j - 1]);
            }
        }
    }
}

/// Merging never lengthens a sequence, and shortens it where the pair occurs.
pub proof fn lemma_merge_len(s: Seq<usize>, p: (usize, usize), n: usize)
    ensures
        merge_seq(s, p, n).len() <= s.len(),
        pair_occurs(s, p) ==> merge_seq(s, p, n).len() < s.len(),
    decreases s.len(),
{
    if s.len() >= 2 && s[0] == p.0 && s[1] == p.1 {
        lemma_merge_len(s.skip(2), p, n);
    } else if s.len() > 0 {
        let t = s.skip(1);
        lemma_merge_len(t, p, n);
        if pair_occurs(s, p) {
            let j = choose|j: int| 0 <= j < s.len() - 1 && #[trigger] s[j] == p.0 && s[j + 1] == p.1;
            assert(j != 0);
            assert(t[j - 1] == p.0 && t[j] == p.1);
        }
    }
}

/// Index of the entry of `stats` for `p`, if there is one.
pub(crate) fn find_pair(stats: &Vec<((usize, usize), usize)>, p: (usize, usize)) -> (r: Option<usize>)
    ensures
        match r {
            Some(k) => k < stats@.len() && stats@[k as int].0 == p,
            None => forall|k: int| 0 <= k < stats@.len() ==> stats@[k].0 != p,
        },
{
    let mut k: usize = 0;
    while k < stats.len()
        invariant
            k <= stats@.len(),
            forall|j: int| 0 <= j < k ==> stats@[j].0 != p,
        decreases stats.len() - k,
    {
        if stats[k].0 .0 == p.0 && stats[k].0 .1 == p.1 {
            return Some(k);
        }
        k = k + 1;
    }
    None
}

/// Counts every adjacent pair of `ids`, overlapping windows included.
pub fn get_stats(ids: &[usize]) -> (stats: Vec<((usize, usize), usize)>)
    ensures
        stats_exact(stats@, ids@),
{
    let mut stats: Vec<((usize, usize), usize)> = Vec::new();
    if ids.len() < 2 {
        return stats;
    }
    let mut i: usize = 1;
    while i < ids.len()
        invariant
            1 <= i <= ids.len(),
            stats_exact(stats@, ids@.subrange(0, i as int)),
        decreases ids.len() - i,
    {
        let a = ids[i - 1];
        let b = ids[i];
        let ghost prev = ids@.subrange(0, i as int);
        let ghost next = ids@.subrange(0, i + 1);
        let ghost old_stats = stats@;
        proof {
            assert(next.drop_last() =~= prev);
            assert(next[next.len() - 2] == a && next[next.len() - 1] == b);
            assert forall|q: (usize, usize)|
                #[trigger] pair_count(next, q) == pair_count(prev, q) + if q.0 == a && q.1 == b {
                    1nat
                } else {
                    0nat
                } by {}
        }
        match find_pair(&stats, (a, b)) {
            Some(k) => {
                let c = stats[k].1;
                proof {
                    lemma_count_le(prev, (a, b));
                }
                stats.set(k, ((a, b), c + 1));
                proof {
                    assert forall|p: (usize, usize)| #[trigger]
                        pair_count(next, p) > 0 implies exists|j: int|
                        0 <= j < stats@.len() && stats@[j].0 == p by {
                        if p == (a, b) {
                            assert(stats@[k as int].0 == p);
                        } else {
                            assert(pair_count(prev, p) > 0);
                            let j = choose|j: int| 0 <= j < old_stats.len() && old_stats[j].0 == p;
                            assert(stats@[j].0 == p);
                        }
                    }
                }
            },
            None => {
                proof {
                    if pair_count(prev, (a, b)) > 0 {
                        let j = choose|j: int|
                            0 <= j < old_stats.len() && old_stats[j].0 == (a, b);
                        assert(old_stats[j].0 == (a, b));
                    }
                }
                stats.push(((a, b), 1));
                proof {
                    assert forall|p: (usize, usize)| #[trigger]
                        pair_count(next, p) > 0 implies exists|j: int|
                        0 <= j < stats@.len() && stats@[j].0 == p by {
                        if p == (a, b) {
                            assert(stats@[old_stats.len() as int].0 == p);
                        } else {
                            assert(pair_count(prev, p) > 0);
                            let j = choose|j: int| 0 <= j < old_stats.len() && old_stats[j].0 == p;
                            assert(stats@[j].0 == p);
                        }
                    }
                }
            },
        }
        i = i + 1;
    }
    proof {
        assert(ids@.subrange(0, ids@.len() as int) =~= ids@);
    }
    stats
}

/// Replaces every left-to-right, non-overlapping occurrence of `pair` in `ids`
/// by `new_id`.
pub fn merge(ids: &[usize], pair: (usize, usize), new_id: usize) -> (result: Vec<usize>)
    ensures
        result@ == merge_seq(ids@, pair, new_id),
{
    let mut result: Vec<usize> = Vec::new();
    let mut i: usize = 0;
    proof {
        assert(ids@.skip(0) =~= ids@);
        assert(result@ + ids@ =~= ids@);
    }
    while i < ids.len()
        invariant
            i <= ids.len(),
            result@ + merge_seq(ids@.skip(i as int), pair, new_id) == merge_seq(ids@, pair, new_id),
        decreases ids.len() - i,
    {
        let ghost rest = ids@.skip(i as int);
        let ghost before = result@;
        if i + 1 < ids.len() && ids[i] == pair.0 && ids[i + 1] == pair.1 {
            result.push(new_id);
            proof {
                assert(rest.skip(2) =~= ids@.skip(i + 2));
                assert(before + (seq![new_id] + merge_seq(rest.skip(2), pair, new_id))
                    =~= result@ + merge_seq(rest.skip(2), pair, new_id));
            }
            i = i + 2;
        } else {
            result.push(ids[i]);
            proof {
                assert(rest.skip(1) =~= ids@.skip(i + 1));
                assert(before + (seq![ids@[i as int]] + merge_seq(rest.skip(1), pair, new_id))
                    =~= result@ + merge_seq(rest.skip(1), pair, new_id));
            }
            i = i + 1;
        }
    }
    proof {
        assert(merge_seq(ids@.skip(i as int), pair, new_id) =~= seq![]);
        assert(result@ + seq![] =~= result@);
    }
    result
}

} // verus!

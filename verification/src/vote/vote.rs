//! Vote bookkeeping: tallying the votes of the field-line walks into voter
//! lists, vote counts and seeds, and ordering the seeds by received votes.

use vstd::prelude::*;
use crate::edge::{EdgeIdx, EdgePointCollection, NO_EDGE};
use crate::edge::collection::voters_of;

verus! {

/// Key of seed `e`: its vote count.
pub open spec fn key_of(keys: Seq<i32>, e: EdgeIdx) -> int {
    keys[e as int] as int
}

/// Insert `x` into `sorted` (descending by key) after every element whose
/// key is at least its own.
pub open spec fn insert_desc(keys: Seq<i32>, sorted: Seq<EdgeIdx>, x: EdgeIdx) -> Seq<EdgeIdx>
    decreases sorted.len(),
{
    if sorted.len() == 0 || key_of(keys, sorted.last()) >= key_of(keys, x) {
        sorted.push(x)
    } else {
        insert_desc(keys, sorted.drop_last(), x).push(sorted.last())
    }
}

/// Stable sort by descending key (insertion sort).
pub open spec fn sort_desc(keys: Seq<i32>, s: Seq<EdgeIdx>) -> Seq<EdgeIdx>
    decreases s.len(),
{
    if s.len() == 0 {
        s
    } else {
        insert_desc(keys, sort_desc(keys, s.drop_last()), s.last())
    }
}

/// The elements of `s` whose key is `k`, in order.
pub open spec fn with_key(keys: Seq<i32>, s: Seq<EdgeIdx>, k: int) -> Seq<EdgeIdx>
    decreases s.len(),
{
    if s.len() == 0 {
        s
    } else {
        with_key(keys, s.drop_last(), k) + if key_of(keys, s.last()) == k {
            seq![s.last()]
        } else {
            seq![]
        }
    }
}

/// Sorted by descending key.
pub open spec fn is_desc(keys: Seq<i32>, s: Seq<EdgeIdx>) -> bool {
    forall|i: int, j: int| 0 <= i < j < s.len() ==> key_of(keys, s[i]) >= key_of(keys, s[j])
}

proof fn lemma_insert_desc(keys: Seq<i32>, sorted: Seq<EdgeIdx>, x: EdgeIdx)
    requires
        is_desc(keys, sorted),
    ensures
        is_desc(keys, insert_desc(keys, sorted, x)),
        insert_desc(keys, sorted, x).to_multiset() == sorted.to_multiset().insert(x),
        insert_desc(keys, sorted, x).len() == sorted.len() + 1,
        forall|k: int| #[trigger] with_key(keys, insert_desc(keys, sorted, x), k) == with_key(keys, sorted, k) + if key_of(keys, x) == k {
            seq![x]
        } else {
            seq![]
        },
    decreases sorted.len(),
{
    let r = insert_desc(keys, sorted, x);
    if sorted.len() == 0 || key_of(keys, sorted.last()) >= key_of(keys, x) {
        assert(r.drop_last() =~= sorted);
        sorted.to_multiset_ensures();
        assert forall|k: int| #[trigger] with_key(keys, r, k) == with_key(keys, sorted, k) + if key_of(keys, x) == k {
            seq![x]
        } else {
            seq![]
        } by {
        }
    } else {
        let pre = sorted.drop_last();
        let l = sorted.last();
        assert(is_desc(keys, pre));
        lemma_insert_desc(keys, pre, x);
        let ri = insert_desc(keys, pre, x);
        assert(r.drop_last() =~= ri);
        assert forall|i: int, j: int| 0 <= i < j < r.len() implies key_of(keys, r[i]) >= key_of(keys, r[j]) by {
            if j == r.len() - 1 {
                // every element of `ri` is `x` or an element of `pre`
                assert(ri.to_multiset().count(r[i]) > 0) by {
                    ri.to_multiset_ensures();
                    assert(ri.contains(ri[i]));
                }
                pre.to_multiset_ensures();
                if r[i] != x {
                    assert(pre.to_multiset().count(r[i]) > 0);
                    assert(pre.contains(r[i]));
                    let t = choose|t: int| 0 <= t < pre.len() && pre[t] == r[i];
                    assert(sorted[t] == pre[t]);
                    assert(sorted[sorted.len() - 1] == l);
                }
            } else {
                assert(r[i] == ri[i] && r[j] == ri[j]);
            }
        }
        ri.to_multiset_ensures();
        sorted.to_multiset_ensures();
        pre.to_multiset_ensures();
        assert(sorted =~= pre.push(l));
        assert(r.to_multiset() =~= sorted.to_multiset().insert(x));
        assert forall|k: int| #[trigger] with_key(keys, r, k) == with_key(keys, sorted, k) + if key_of(keys, x) == k {
            seq![x]
        } else {
            seq![]
        } by {
            assert(with_key(keys, ri, k) == with_key(keys, pre, k) + if key_of(keys, x) == k {
                seq![x]
            } else {
                seq![]
            });
            assert(with_key(keys, r, k) =~= with_key(keys, ri, k) + if key_of(keys, l) == k {
                seq![l]
            } else {
                seq![]
            });
            assert(with_key(keys, sorted, k) =~= with_key(keys, pre, k) + if key_of(keys, l) == k {
                seq![l]
            } else {
                seq![]
            });
        }
    }
}

/// The stable descending sort is sorted, a permutation of its input, and
/// keeps the input order among equal keys.
pub proof fn lemma_sort_desc(keys: Seq<i32>, s: Seq<EdgeIdx>)
    ensures
        is_desc(keys, sort_desc(keys, s)),
        sort_desc(keys, s).to_multiset() == s.to_multiset(),
        sort_desc(keys, s).len() == s.len(),
        forall|k: int| #[trigger] with_key(keys, sort_desc(keys, s), k) == with_key(keys, s, k),
    decreases s.len(),
{
    if s.len() > 0 {
        let pre = s.drop_last();
        lemma_sort_desc(keys, pre);
        lemma_insert_desc(keys, sort_desc(keys, pre), s.last());
        s.to_multiset_ensures();
        pre.to_multiset_ensures();
        assert(s =~= pre.push(s.last()));
        assert forall|k: int| #[trigger] with_key(keys, sort_desc(keys, s), k) == with_key(keys, s, k) by {
            assert(with_key(keys, s, k) =~= with_key(keys, pre, k) + if key_of(keys, s.last()) == k {
                seq![s.last()]
            } else {
                seq![]
            });
        }
    }
}


proof fn lemma_insert_step(keys: Seq<i32>, sorted: Seq<EdgeIdx>, x: EdgeIdx, j: int)
    requires
        0 < j <= sorted.len(),
        key_of(keys, sorted[j - 1]) < key_of(keys, x),
    ensures
        insert_desc(keys, sorted.take(j), x) == insert_desc(keys, sorted.take(j - 1), x).push(sorted[j - 1]),
{
    assert(sorted.take(j).drop_last() =~= sorted.take(j - 1));
}

/// Order `seeds` by descending vote count (`coll.is_max`); seeds with equal
/// counts keep their order.
pub fn sort_seeds(coll: &EdgePointCollection, seeds: &mut [EdgeIdx])
    requires
        forall|k: int| 0 <= k < old(seeds)@.len() ==> 0 <= #[trigger] old(seeds)@[k] < coll.is_max@.len(),
    ensures
        final(seeds)@ == sort_desc(coll.is_max@, old(seeds)@),
{
    let ghost keys = coll.is_max@;
    let ghost orig = seeds@;
    let n = seeds.len();
    if n <= 1 {
        proof {
            if n == 1 {
                assert(orig.drop_last() =~= seq![]);
                assert(sort_desc(keys, orig.drop_last()) =~= seq![]);
                assert(sort_desc(keys, orig) =~= orig);
            } else {
                assert(sort_desc(keys, orig) =~= orig);
            }
        }
        return;
    }
    let mut i: usize = 1;
    proof {
        assert(orig.take(1).drop_last() =~= seq![]);
        assert(sort_desc(keys, orig.take(1).drop_last()) =~= seq![]);
        assert(seeds@.take(1) =~= sort_desc(keys, orig.take(1)));
    }
    while i < n
        invariant
            n == seeds@.len(),
            n == orig.len(),
            keys == coll.is_max@,
            forall|k: int| 0 <= k < n ==> 0 <= #[trigger] orig[k] < keys.len(),
            forall|k: int| 0 <= k < n ==> 0 <= #[trigger] seeds@[k] < keys.len(),
            1 <= i <= n,
            seeds@.take(i as int) == sort_desc(keys, orig.take(i as int)),
            seeds@.subrange(i as int, n as int) == orig.subrange(i as int, n as int),
        decreases n - i,
    {
        let ghost sorted = seeds@.take(i as int);
        let x = seeds[i];
        proof {
            assert(orig[i as int] == seeds@.subrange(i as int, n as int)[0]);
            assert(x == orig[i as int]);
            assert(orig.take(i + 1).drop_last() =~= orig.take(i as int));
            assert(sort_desc(keys, orig.take(i + 1)) == insert_desc(keys, sorted, x));
            lemma_sort_desc(keys, orig.take(i as int));
            assert(seeds@.subrange(i + 1, n as int) =~= orig.subrange(i + 1, n as int)) by {
                assert forall|k: int| 0 <= k < n - i - 1 implies #[trigger] seeds@.subrange(i + 1, n as int)[k] == orig.subrange(i + 1, n as int)[k] by {
                    assert(seeds@.subrange(i as int, n as int)[k + 1] == orig.subrange(i as int, n as int)[k + 1]);
                }
            }
            assert(seeds@.subrange(i + 1, i + 1) =~= sorted.subrange(i as int, i as int));
            assert(sorted.subrange(i as int, i as int) =~= seq![]);
            assert(sorted.take(i as int) =~= sorted);
            assert(insert_desc(keys, sorted, x) =~= insert_desc(keys, sorted.take(i as int), x) + sorted.subrange(i as int, i as int));
        }
        let mut j: usize = i;
        loop
            invariant
                n == seeds@.len(),
                keys == coll.is_max@,
                forall|k: int| 0 <= k < n ==> 0 <= #[trigger] orig[k] < keys.len(),
                1 <= i < n,
                j <= i,
                sorted.len() == i,
                forall|k: int| 0 <= k < n ==> 0 <= #[trigger] seeds@[k] < keys.len(),
                0 <= x < keys.len(),
                seeds@.take(j as int) == sorted.take(j as int),
                seeds@.subrange(j as int + 1, i as int + 1) == sorted.subrange(j as int, i as int),
                seeds@.subrange(i as int + 1, n as int) == orig.subrange(i as int + 1, n as int),
                insert_desc(keys, sorted, x) == insert_desc(keys, sorted.take(j as int), x) + sorted.subrange(j as int, i as int),
            ensures
                j <= i,
                n == seeds@.len(),
                forall|k: int| 0 <= k < n ==> 0 <= #[trigger] seeds@[k] < keys.len(),
                seeds@.take(j as int) == sorted.take(j as int),
                seeds@.subrange(j as int + 1, i as int + 1) == sorted.subrange(j as int, i as int),
                seeds@.subrange(i as int + 1, n as int) == orig.subrange(i as int + 1, n as int),
                insert_desc(keys, sorted, x) == insert_desc(keys, sorted.take(j as int), x) + sorted.subrange(j as int, i as int),
                j == 0 || key_of(keys, sorted[j - 1]) >= key_of(keys, x),
            decreases j,
        {
            if j == 0 {
                break;
            }
            let prev = seeds[j - 1];
            proof {
                assert(prev == sorted[j - 1]);
            }
            if coll.is_max[prev as usize] >= coll.is_max[x as usize] {
                break;
            }
            proof {
                lemma_insert_step(keys, sorted, x, j as int);
                assert(sorted.subrange(j - 1, i as int) =~= seq![sorted[j - 1]] + sorted.subrange(j as int, i as int));
            }
            seeds[j] = prev;
            j = j - 1;
            proof {
                assert(seeds@.take(j as int) =~= sorted.take(j as int));
                assert(seeds@.subrange(j as int + 1, i as int + 1) =~= sorted.subrange(j as int, i as int));
            }
        }
        proof {
            if j > 0 {
                assert(sorted.take(j as int).last() == sorted[j - 1]);
            }
            assert(insert_desc(keys, sorted.take(j as int), x) == sorted.take(j as int).push(x));
        }
        seeds[j] = x;
        proof {
            assert(seeds@.take(i + 1) =~= sorted.take(j as int).push(x) + sorted.subrange(j as int, i as int));
            assert(seeds@.subrange(i + 1, n as int) =~= orig.subrange(i + 1, n as int));
        }
        i = i + 1;
    }
    proof {
        assert(seeds@.take(n as int) =~= seeds@);
        assert(orig.take(n as int) =~= orig);
    }
}


/// The `(chosen, voter)` pairs of the first `t` points: point `i` voted for
/// `chosen[i]` unless that is [`NO_EDGE`].
pub open spec fn vote_pairs(chosen: Seq<EdgeIdx>, t: int) -> Seq<(EdgeIdx, EdgeIdx)>
    decreases t,
{
    if t <= 0 {
        seq![]
    } else {
        vote_pairs(chosen, t - 1) + if chosen[t - 1] != NO_EDGE {
            seq![(chosen[t - 1], (t - 1) as EdgeIdx)]
        } else {
            seq![]
        }
    }
}

/// Votes received by point `c` from the first `t` points.
pub open spec fn votes_for(chosen: Seq<EdgeIdx>, t: int, c: int) -> nat {
    voters_of(vote_pairs(chosen, t), c).len()
}

/// A point becomes a candidate seed once it has at least one vote and at
/// least `min_votes`.
pub open spec fn is_selected(chosen: Seq<EdgeIdx>, t: int, c: int, min_votes: int) -> bool {
    votes_for(chosen, t, c) >= 1 && votes_for(chosen, t, c) >= min_votes
}

/// Seeds found among the first `t` votes: each point whose count first
/// reaches the threshold at vote `t - 1` and whose `is_max` was -1, in order.
pub open spec fn seeds_of(chosen: Seq<EdgeIdx>, old_is_max: Seq<i32>, min_votes: int, t: int) -> Seq<EdgeIdx>
    decreases t,
{
    if t <= 0 {
        seq![]
    } else {
        let c = chosen[t - 1];
        seeds_of(chosen, old_is_max, min_votes, t - 1) + if c != NO_EDGE && is_selected(chosen, t, c as int, min_votes)
            && !is_selected(chosen, t - 1, c as int, min_votes) && old_is_max[c as int] == -1 {
            seq![c]
        } else {
            seq![]
        }
    }
}

proof fn lemma_votes_step(chosen: Seq<EdgeIdx>, t: int, c: int)
    requires
        0 <= t,
    ensures
        votes_for(chosen, t + 1, c) == votes_for(chosen, t, c) + if chosen[t] != NO_EDGE && chosen[t] == c {
            1nat
        } else {
            0nat
        },
        vote_pairs(chosen, t + 1).len() <= t + 1,
    decreases t,
{
    let ps = vote_pairs(chosen, t);
    if chosen[t] != NO_EDGE {
        let q = ps.push((chosen[t], t as EdgeIdx));
        assert(vote_pairs(chosen, t + 1) =~= q);
        assert(q.drop_last() =~= ps);
    } else {
        assert(vote_pairs(chosen, t + 1) =~= ps);
    }
    if t > 0 {
        lemma_votes_step(chosen, t - 1, c);
    }
}

/// Tally the votes: point `i` voted for `chosen[i]` (or for nobody when
/// [`NO_EDGE`]). Builds the voter lists, sets `is_max` of every point whose
/// vote count reaches `max(1, min_votes)` to that count, and returns those of
/// them whose `is_max` was -1, in the order they reached it.
pub fn tally_votes(coll: &mut EdgePointCollection, chosen: &[EdgeIdx], min_votes: usize) -> (seeds: Vec<EdgeIdx>)
    requires
        old(coll).wf(),
        chosen@.len() == old(coll).points@.len(),
        forall|i: int| 0 <= i < chosen@.len() ==> #[trigger] chosen@[i] == NO_EDGE || 0 <= chosen@[i] < chosen@.len(),
    ensures
        final(coll).wf(),
        final(coll).voters_wf(),
        forall|c: int| 0 <= c < final(coll).points@.len() ==> #[trigger] final(coll).voters_seq(c) == voters_of(vote_pairs(chosen@, chosen@.len() as int), c),
        forall|c: int| 0 <= c < final(coll).points@.len() ==> #[trigger] final(coll).is_max@[c] == if is_selected(chosen@, chosen@.len() as int, c, min_votes as int) {
            votes_for(chosen@, chosen@.len() as int, c) as i32
        } else {
            old(coll).is_max@[c]
        },
        seeds@ == seeds_of(chosen@, old(coll).is_max@, min_votes as int, chosen@.len() as int),
        final(coll).points@ == old(coll).points@,
        final(coll).edge_map@ == old(coll).edge_map@,
        final(coll).links@ == old(coll).links@,
        final(coll).n_segment_out@ == old(coll).n_segment_out@,
        final(coll).processed@ == old(coll).processed@,
        final(coll).processed_in@ == old(coll).processed_in@,
        final(coll).processed_aux@ == old(coll).processed_aux@,
        final(coll).map_w == old(coll).map_w,
        final(coll).map_h == old(coll).map_h,
        final(coll).bound_w == old(coll).bound_w,
        final(coll).bound_h == old(coll).bound_h,
{
    let n = coll.points.len();
    let ghost ch = chosen@;
    let ghost old_max = coll.is_max@;
    let mut pairs: Vec<(EdgeIdx, EdgeIdx)> = Vec::new();
    let mut counts: Vec<u32> = crate::image::vec_filled(n, 0u32);
    let mut seeds: Vec<EdgeIdx> = Vec::new();
    let mut i: usize = 0;
    while i < n
        invariant
            n == ch.len(),
            ch == chosen@,
            n == coll.points@.len(),
            n <= i32::MAX,
            coll.wf(),
            forall|k: int| 0 <= k < n ==> #[trigger] ch[k] == NO_EDGE || 0 <= ch[k] < n,
            i <= n,
            pairs@ == vote_pairs(ch, i as int),
            pairs@.len() <= i,
            counts@.len() == n,
            forall|c: int| 0 <= c < n ==> #[trigger] counts@[c] == votes_for(ch, i as int, c),
            forall|c: int| 0 <= c < n ==> #[trigger] coll.is_max@[c] == if is_selected(ch, i as int, c, min_votes as int) {
                votes_for(ch, i as int, c) as i32
            } else {
                old_max[c]
            },
            forall|c: int| 0 <= c < n ==> #[trigger] votes_for(ch, i as int, c) <= i,
            seeds@ == seeds_of(ch, old_max, min_votes as int, i as int),
            coll.points@ == old(coll).points@,
            coll.edge_map@ == old(coll).edge_map@,
            coll.links@ == old(coll).links@,
            coll.n_segment_out@ == old(coll).n_segment_out@,
            coll.processed@ == old(coll).processed@,
            coll.processed_in@ == old(coll).processed_in@,
            coll.processed_aux@ == old(coll).processed_aux@,
            coll.map_w == old(coll).map_w,
            coll.map_h == old(coll).map_h,
            coll.bound_w == old(coll).bound_w,
            coll.bound_h == old(coll).bound_h,
        decreases n - i,
    {
        let c = chosen[i];
        proof {
            assert forall|cc: int| 0 <= cc < n implies votes_for(ch, i as int + 1, cc) == votes_for(ch, i as int, cc) + if ch[i as int] != NO_EDGE && ch[i as int] == cc {
                1nat
            } else {
                0nat
            } by {
                lemma_votes_step(ch, i as int, cc);
            }
            lemma_votes_step(ch, i as int, 0);
            assert forall|cc: int| 0 <= cc < n implies #[trigger] votes_for(ch, i as int + 1, cc) <= i + 1 by {
                lemma_votes_step(ch, i as int, cc);
                assert(votes_for(ch, i as int, cc) <= i);
            }
        }
        if c != NO_EDGE {
            let cu = c as usize;
            pairs.push((c, i as EdgeIdx));
            let cnt = counts[cu] + 1;
            counts.set(cu, cnt);
            if cnt as usize >= min_votes {
                if coll.is_max[cu] == -1 {
                    seeds.push(c);
                }
                coll.is_max.set(cu, cnt as i32);
            }
        }
        proof {
            assert(pairs@ =~= vote_pairs(ch, i as int + 1));
            assert(seeds@ =~= seeds_of(ch, old_max, min_votes as int, i as int + 1));
        }
        i = i + 1;
    }
    proof {
        assert forall|t: int| 0 <= t < pairs@.len() implies 0 <= #[trigger] pairs@[t].0 < coll.points@.len() by {
            lemma_vote_pairs_valid(ch, n as int, t);
        }
    }
    coll.create_voter_lists(pairs.as_slice());
    seeds
}

proof fn lemma_vote_pairs_valid(chosen: Seq<EdgeIdx>, t: int, k: int)
    requires
        0 <= t <= chosen.len(),
        0 <= k < vote_pairs(chosen, t).len(),
        forall|i: int| 0 <= i < chosen.len() ==> #[trigger] chosen[i] == NO_EDGE || 0 <= chosen[i] < chosen.len(),
    ensures
        0 <= vote_pairs(chosen, t)[k].0 < chosen.len(),
    decreases t,
{
    if t > 0 {
        if k < vote_pairs(chosen, t - 1).len() {
            lemma_vote_pairs_valid(chosen, t - 1, k);
        }
    }
}

} // verus!

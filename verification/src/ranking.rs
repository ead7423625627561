//! Ordering and selection of query results.  The nearest-neighbour engine and
//! the message listings both need the same primitive: out of a row of
//! candidate keys, pick the `k` smallest, ascending, with ties ranked by the
//! candidates' own order.  Keys are unsigned 64-bit values; a caller that
//! ranks by a collaborator's distance hands in the distances mapped onto that
//! order (non-negative IEEE-754 doubles keep their order as raw bits), and a
//! caller that ranks newest-first hands in reversed timestamps.

use vstd::prelude::*;
use vstd::seq_lib::group_seq_properties;
use vstd::set_lib::{lemma_int_range, lemma_len_subset, set_int_range};

verus! {

/// The strict total order of candidates: the lower key first; between equal
/// keys, the earlier candidate first.
pub open spec fn key_lt(keys: Seq<u64>, a: int, b: int) -> bool {
    keys[a] < keys[b] || (keys[a] == keys[b] && a < b)
}

/// `sel` lists, in ascending key order, the positions of the `k` smallest
/// keys (all positions, when there are fewer than `k`).  The three clauses
/// pin `sel` down completely: it is in bounds, internally sorted by the
/// candidate order, and no listed candidate is beaten by an unlisted one.
pub open spec fn is_ranking(keys: Seq<u64>, k: int, sel: Seq<usize>) -> bool {
    &&& sel.len() == vstd::math::min(k, keys.len() as int)
    &&& (forall|i: int| 0 <= i < sel.len() ==> (#[trigger] sel[i]) < keys.len())
    &&& (forall|i: int, j: int|
        0 <= i < j < sel.len() ==> key_lt(keys, sel[i] as int, sel[j] as int))
    &&& (forall|t: usize, i: int|
        #![trigger sel.contains(t), sel[i]]
        t < keys.len() && !sel.contains(t) && 0 <= i < sel.len() ==> key_lt(
            keys,
            sel[i] as int,
            t as int,
        ))
}

/// While fewer candidates are listed than exist, some candidate is unlisted.
proof fn lemma_unused_exists(used: Seq<bool>, listed: Seq<usize>)
    requires
        listed.len() < used.len(),
        used.len() <= usize::MAX,
        forall|j: int| 0 <= j < used.len() ==> ((#[trigger] used[j]) <==> listed.contains(j as usize)),
    ensures
        exists|j: int| 0 <= j < used.len() && !used[j],
{
    broadcast use group_seq_properties;

    let n = used.len() as int;
    if forall|j: int| 0 <= j < n ==> #[trigger] used[j] {
        let ints = listed.map_values(|u: usize| u as int);
        ints.lemma_cardinality_of_set();
        let range = set_int_range(0, n);
        lemma_int_range(0, n);
        assert forall|x: int| range.contains(x) implies ints.to_set().contains(x) by {
            assert(used[x]);
            let w = choose|i: int| 0 <= i < listed.len() && listed[i] == x as usize;
            assert(listed[w] as int == x);
            assert(ints[w] == x);
            assert(ints.contains(x));
        };
        lemma_len_subset(range, ints.to_set());
        assert(n <= ints.to_set().len());
        assert(false);
    }
}

/// Rank the candidates: return the positions of the (up to) `k` smallest
/// keys, ascending, ties in candidate order.
pub fn rank_ascending(keys: &Vec<u64>, k: usize) -> (r: Vec<usize>)
    ensures
        is_ranking(keys@, k as int, r@),
{
    let n = keys.len();
    let count = if k < n {
        k
    } else {
        n
    };
    let mut used: Vec<bool> = Vec::new();
    while used.len() < n
        invariant
            used@.len() <= n,
            forall|j: int| 0 <= j < used@.len() ==> !(#[trigger] used@[j]),
        decreases n - used@.len(),
    {
        used.push(false);
    }
    let mut r: Vec<usize> = Vec::new();
    while r.len() < count
        invariant
            n == keys@.len(),
            count <= n,
            used@.len() == n,
            r@.len() <= count,
            forall|i: int| 0 <= i < r@.len() ==> (#[trigger] r@[i]) < n,
            forall|i: int, j: int|
                0 <= i < j < r@.len() ==> key_lt(keys@, r@[i] as int, r@[j] as int),
            forall|j: int| 0 <= j < n ==> ((#[trigger] used@[j]) <==> r@.contains(j as usize)),
            forall|t: int, i: int|
                #![trigger used@[t], r@[i]]
                0 <= t < n && !used@[t] && 0 <= i < r@.len() ==> key_lt(
                    keys@,
                    r@[i] as int,
                    t,
                ),
        decreases count - r@.len(),
    {
        proof {
            lemma_unused_exists(used@, r@);
        }
        let mut best: usize = 0;
        let mut found: bool = false;
        let mut j: usize = 0;
        while j < n
            invariant
                n == keys@.len(),
                used@.len() == n,
                j <= n,
                found ==> best < n && !used@[best as int],
                found ==> best < j,
                found ==> forall|x: int|
                    0 <= x < j && !used@[x] ==> best as int == x || key_lt(keys@, best as int, x),
                !found ==> forall|x: int| 0 <= x < j ==> #[trigger] used@[x],
            decreases n - j,
        {
            if !used[j] {
                if !found {
                    best = j;
                    found = true;
                } else if keys[j] < keys[best] {
                    best = j;
                }
            }
            j = j + 1;
        }
        proof {
            assert(found) by {
                if !found {
                    let w = choose|x: int| 0 <= x < n && !used@[x];
                    assert(used@[w]);
                }
            }
        }
        let ghost old_r = r@;
        let ghost old_used = used@;
        used[best] = true;
        r.push(best);
        proof {
            assert forall|jj: int| 0 <= jj < n implies ((#[trigger] used@[jj]) <==> r@.contains(
                jj as usize,
            )) by {
                if used@[jj] {
                    if jj == best as int {
                        assert(r@[r@.len() - 1] == best);
                    } else {
                        assert(old_used[jj]);
                        let w = choose|i: int| 0 <= i < old_r.len() && old_r[i] == jj as usize;
                        assert(r@[w] == jj as usize);
                    }
                } else {
                    if r@.contains(jj as usize) {
                        let w = choose|i: int| 0 <= i < r@.len() && r@[i] == jj as usize;
                        if w < old_r.len() {
                            assert(old_r[w] == jj as usize);
                            assert(old_used[jj]);
                        } else {
                            assert(jj == best as int);
                        }
                    }
                }
            };
            assert forall|t: int, i: int|
                0 <= t < n && !used@[t] && 0 <= i < r@.len() implies key_lt(
                keys@,
                r@[i] as int,
                t,
            ) by {
                assert(!old_used[t]);
                if i < old_r.len() {
                    assert(old_r[i] == r@[i]);
                } else {
                    assert(r@[i] == best);
                    assert(best as int != t);
                }
            };
        }
    }
    proof {
        assert forall|t: usize, i: int|
            #![trigger r@.contains(t), r@[i]]
            t < keys@.len() && !r@.contains(t) && 0 <= i < r@.len() implies key_lt(
            keys@,
            r@[i] as int,
            t as int,
        ) by {
            assert(!used@[t as int]);
        };
    }
    r
}

/// The clauses of `is_ranking` admit exactly one ranking: whatever procedure
/// the collaborator search engine uses, a result that satisfies them is the
/// same list this library's ranking produces.
pub proof fn lemma_ranking_unique(keys: Seq<u64>, k: int, sel1: Seq<usize>, sel2: Seq<usize>)
    requires
        is_ranking(keys, k, sel1),
        is_ranking(keys, k, sel2),
    ensures
        sel1 == sel2,
    decreases sel1.len(),
{
    if sel1.len() == 0 {
        assert(sel1 =~= sel2);
    } else {
        let a = sel1[0];
        let b = sel2[0];
        assert(a == b) by {
            if a != b {
                assert(key_lt(keys, b as int, a as int)) by {
                    if sel2.contains(a) {
                        let w = choose|i: int| 0 <= i < sel2.len() && sel2[i] == a;
                        assert(w != 0);
                        assert(key_lt(keys, sel2[0] as int, sel2[w] as int));
                    } else {
                        assert(key_lt(keys, sel2[0] as int, a as int));
                    }
                };
                assert(key_lt(keys, a as int, b as int)) by {
                    if sel1.contains(b) {
                        let w = choose|i: int| 0 <= i < sel1.len() && sel1[i] == b;
                        assert(w != 0);
                        assert(key_lt(keys, sel1[0] as int, sel1[w] as int));
                    } else {
                        assert(key_lt(keys, sel1[0] as int, b as int));
                    }
                };
                assert(false);
            }
        };
        let tail1 = sel1.drop_first();
        let tail2 = sel2.drop_first();
        lemma_tail_ranking(keys, k, sel1);
        lemma_tail_ranking(keys, k, sel2);
        lemma_ranking_unique_from(keys, a, tail1, tail2);
        assert forall|i: int| 0 <= i < sel1.len() implies sel1[i] == sel2[i] by {
            if i > 0 {
                assert(tail1[i - 1] == sel1[i]);
                assert(tail2[i - 1] == sel2[i]);
            }
        };
        assert(sel1 =~= sel2);
    }
}

/// The rankings that exclude everything at or before a pivot candidate.
spec fn is_ranking_from(keys: Seq<u64>, pivot: usize, sel: Seq<usize>) -> bool {
    &&& (forall|i: int| 0 <= i < sel.len() ==> (#[trigger] sel[i]) < keys.len())
    &&& (forall|i: int, j: int|
        0 <= i < j < sel.len() ==> key_lt(keys, sel[i] as int, sel[j] as int))
    &&& (forall|i: int| 0 <= i < sel.len() ==> key_lt(keys, pivot as int, #[trigger] sel[i] as int))
    &&& (forall|t: usize, i: int|
        #![trigger sel.contains(t), sel[i]]
        t < keys.len() && t != pivot && !sel.contains(t) && key_lt(keys, pivot as int, t as int)
            && 0 <= i < sel.len() ==> key_lt(keys, sel[i] as int, t as int))
}

spec fn is_ranking_tail(keys: Seq<u64>, sel: Seq<usize>) -> bool {
    sel.len() > 0 && is_ranking_from(keys, sel[0], sel.drop_first())
}

proof fn lemma_tail_ranking(keys: Seq<u64>, k: int, sel: Seq<usize>)
    requires
        is_ranking(keys, k, sel),
        sel.len() > 0,
    ensures
        is_ranking_tail(keys, sel),
{
    let head = sel[0];
    let tail = sel.drop_first();
    assert forall|t: usize, i: int|
        #![trigger tail.contains(t), tail[i]]
        t < keys.len() && t != head && !tail.contains(t) && key_lt(keys, head as int, t as int)
            && 0 <= i < tail.len() implies key_lt(keys, tail[i] as int, t as int) by {
        if sel.contains(t) {
            let w = choose|x: int| 0 <= x < sel.len() && sel[x] == t;
            assert(w > 0);
            assert(tail[w - 1] == t);
        } else {
            assert(key_lt(keys, sel[i + 1] as int, t as int));
            assert(tail[i] == sel[i + 1]);
        }
    };
    assert forall|i: int| 0 <= i < tail.len() implies key_lt(
        keys,
        head as int,
        #[trigger] tail[i] as int,
    ) by {
        assert(tail[i] == sel[i + 1]);
    };
    assert forall|i: int, j: int| 0 <= i < j < tail.len() implies key_lt(
        keys,
        tail[i] as int,
        tail[j] as int,
    ) by {
        assert(tail[i] == sel[i + 1]);
        assert(tail[j] == sel[j + 1]);
    };
    assert forall|i: int| 0 <= i < tail.len() implies (#[trigger] tail[i]) < keys.len() by {
        assert(tail[i] == sel[i + 1]);
    };
}

proof fn lemma_ranking_unique_from(keys: Seq<u64>, pivot: usize, sel1: Seq<usize>, sel2: Seq<usize>)
    requires
        is_ranking_from(keys, pivot, sel1),
        is_ranking_from(keys, pivot, sel2),
        sel1.len() == sel2.len(),
    ensures
        sel1 == sel2,
    decreases sel1.len(),
{
    if sel1.len() == 0 {
        assert(sel1 =~= sel2);
    } else {
        let a = sel1[0];
        let b = sel2[0];
        assert(a == b) by {
            if a != b {
                assert(key_lt(keys, b as int, a as int)) by {
                    if sel2.contains(a) {
                        let w = choose|i: int| 0 <= i < sel2.len() && sel2[i] == a;
                        assert(w != 0);
                        assert(key_lt(keys, sel2[0] as int, sel2[w] as int));
                    } else {
                        assert(key_lt(keys, pivot as int, a as int));
                        assert(key_lt(keys, sel2[0] as int, a as int));
                    }
                };
                assert(key_lt(keys, a as int, b as int)) by {
                    if sel1.contains(b) {
                        let w = choose|i: int| 0 <= i < sel1.len() && sel1[i] == b;
                        assert(w != 0);
                        assert(key_lt(keys, sel1[0] as int, sel1[w] as int));
                    } else {
                        assert(key_lt(keys, pivot as int, b as int));
                        assert(key_lt(keys, sel1[0] as int, b as int));
                    }
                };
                assert(false);
            }
        };
        let tail1 = sel1.drop_first();
        let tail2 = sel2.drop_first();
        lemma_from_tail(keys, pivot, sel1);
        lemma_from_tail(keys, pivot, sel2);
        lemma_ranking_unique_from(keys, a, tail1, tail2);
        assert forall|i: int| 0 <= i < sel1.len() implies sel1[i] == sel2[i] by {
            if i > 0 {
                assert(tail1[i - 1] == sel1[i]);
                assert(tail2[i - 1] == sel2[i]);
            }
        };
        assert(sel1 =~= sel2);
    }
}

proof fn lemma_from_tail(keys: Seq<u64>, pivot: usize, sel: Seq<usize>)
    requires
        is_ranking_from(keys, pivot, sel),
        sel.len() > 0,
    ensures
        is_ranking_from(keys, sel[0], sel.drop_first()),
{
    let head = sel[0];
    let tail = sel.drop_first();
    assert forall|i: int| 0 <= i < tail.len() implies (#[trigger] tail[i]) < keys.len() && key_lt(
        keys,
        head as int,
        tail[i] as int,
    ) by {
        assert(tail[i] == sel[i + 1]);
    };
    assert forall|i: int, j: int| 0 <= i < j < tail.len() implies key_lt(
        keys,
        tail[i] as int,
        tail[j] as int,
    ) by {
        assert(tail[i] == sel[i + 1]);
        assert(tail[j] == sel[j + 1]);
    };
    assert forall|t: usize, i: int|
        #![trigger tail.contains(t), tail[i]]
        t < keys.len() && t != head && !tail.contains(t) && key_lt(keys, head as int, t as int)
            && 0 <= i < tail.len() implies key_lt(keys, tail[i] as int, t as int) by {
        assert(tail[i] == sel[i + 1]);
        if sel.contains(t) {
            let w = choose|x: int| 0 <= x < sel.len() && sel[x] == t;
            assert(w > 0);
            assert(tail[w - 1] == t);
        } else {
            if t != pivot {
                assert(key_lt(keys, sel[i + 1] as int, t as int));
            } else {
                assert(key_lt(keys, pivot as int, head as int));
                assert(key_lt(keys, head as int, tail[i] as int));
                assert(key_lt(keys, pivot as int, tail[i] as int));
                assert(false);
            }
        }
    };
}

} // verus!

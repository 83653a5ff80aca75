//! The candidate order: a permutation of all block indices sorted by
//! descending max value. Equal values keep ascending block-index order — the
//! stable tie-break of a sort that starts from the identity permutation.

use vstd::prelude::*;
use crate::scan::BlockInfo;

verus! {

/// Block `a` is ranked strictly ahead of block `b`: a larger max value, or an
/// equal value at a smaller block index. A strict total order on distinct
/// block indices.
pub open spec fn prefer(maxes: Seq<BlockInfo>, a: int, b: int) -> bool {
    maxes[a].max > maxes[b].max || (maxes[a].max == maxes[b].max && a < b)
}

/// Insert block `v` into an already ranked sequence, ahead of the first entry
/// it is ranked before.
pub open spec fn insert_ranked(maxes: Seq<BlockInfo>, v: usize, s: Seq<usize>) -> Seq<usize>
    decreases s.len(),
{
    if s.len() == 0 {
        seq![v]
    } else if prefer(maxes, v as int, s[0] as int) {
        seq![v] + s
    } else {
        seq![s[0]] + insert_ranked(maxes, v, s.drop_first())
    }
}

/// The ranked permutation of the block indices `0 .. k`.
pub open spec fn ranked_upto(maxes: Seq<BlockInfo>, k: nat) -> Seq<usize>
    decreases k,
{
    if k == 0 {
        Seq::empty()
    } else {
        insert_ranked(maxes, (k - 1) as usize, ranked_upto(maxes, (k - 1) as nat))
    }
}

/// The candidate order of a frame: every block index once, ranked.
pub open spec fn sorted_order(maxes: Seq<BlockInfo>) -> Seq<usize> {
    ranked_upto(maxes, maxes.len())
}

/// What makes a sequence the ranked permutation of `0 .. k`: length, range,
/// no repetition, every index present, and pairwise order.
pub open spec fn is_ranked_perm(maxes: Seq<BlockInfo>, s: Seq<usize>, k: nat) -> bool {
    &&& s.len() == k
    &&& forall|i: int| 0 <= i < s.len() ==> (#[trigger] s[i]) < k
    &&& forall|i: int, j: int| 0 <= i < j < s.len() ==> s[i] != s[j]
    &&& forall|v: usize| v < k ==> #[trigger] s.contains(v)
    &&& forall|i: int, j: int|
        0 <= i < j < s.len() ==> prefer(maxes, #[trigger] s[i] as int, #[trigger] s[j] as int)
}

/// The order is total: of two distinct block indices one is ranked ahead.
proof fn lemma_prefer_total(maxes: Seq<BlockInfo>, a: int, b: int)
    requires
        a != b,
    ensures
        prefer(maxes, a, b) || prefer(maxes, b, a),
{
}

/// Inserting a fresh block index into a ranked permutation keeps it one.
proof fn lemma_insert_ranked(maxes: Seq<BlockInfo>, v: usize, s: Seq<usize>, k: nat)
    requires
        is_ranked_perm(maxes, s, k),
        v == k,
        forall|i: int| 0 <= i < s.len() ==> prefer(maxes, #[trigger] s[i] as int, v as int) || prefer(
            maxes,
            v as int,
            s[i] as int,
        ),
    ensures
        is_ranked_perm(maxes, insert_ranked(maxes, v, s), (k + 1) as nat),
    decreases s.len(),
{
    let r = insert_ranked(maxes, v, s);
    if s.len() == 0 {
        assert(r =~= seq![v]);
        assert forall|w: usize| w < k + 1 implies r.contains(w) by {
            assert(r[0] == v);
        }
    } else if prefer(maxes, v as int, s[0] as int) {
        assert(r =~= seq![v] + s);
        assert forall|w: usize| w < k + 1 implies r.contains(w) by {
            if w == v {
                assert(r[0] == w);
            } else {
                assert(s.contains(w));
                let i = choose|i: int| 0 <= i < s.len() && s[i] == w;
                assert(r[i + 1] == w);
            }
        }
        assert forall|i: int, j: int| 0 <= i < j < r.len() implies prefer(
            maxes,
            #[trigger] r[i] as int,
            #[trigger] r[j] as int,
        ) by {
            if i == 0 {
                if s[j - 1] != s[0] {
                    assert(prefer(maxes, s[0] as int, s[j - 1] as int) || j - 1 == 0);
                }
            }
        }
    } else {
        let tail = s.drop_first();
        let rt = insert_ranked(maxes, v, tail);
        assert(r =~= seq![s[0]] + rt);
        // The tail is a ranked sequence of the same indices minus the head,
        // not a permutation of 0 .. k, so only the structural clauses recurse.
        assert(forall|i: int| 0 <= i < tail.len() ==> (#[trigger] tail[i]) == s[i + 1]);
        lemma_insert_ranked_partial(maxes, v, tail);
        assert(prefer(maxes, s[0] as int, v as int)) by {
            lemma_prefer_total(maxes, s[0] as int, v as int);
        }
        assert forall|w: usize| w < k + 1 implies r.contains(w) by {
            if w == v {
                assert(rt.contains(v));
                let i = choose|i: int| 0 <= i < rt.len() && rt[i] == w;
                assert(r[i + 1] == w);
            } else if w == s[0] {
                assert(r[0] == w);
            } else {
                assert(s.contains(w));
                let i = choose|i: int| 0 <= i < s.len() && s[i] == w;
                assert(tail[i - 1] == w);
                assert(tail.contains(w));
                assert(rt.contains(w));
                let j = choose|j: int| 0 <= j < rt.len() && rt[j] == w;
                assert(r[j + 1] == w);
            }
        }
        assert forall|i: int, j: int| 0 <= i < j < r.len() implies prefer(
            maxes,
            #[trigger] r[i] as int,
            #[trigger] r[j] as int,
        ) by {
            if i == 0 {
                if r[j] == v {
                    assert(prefer(maxes, s[0] as int, v as int));
                } else {
                    assert(tail.contains(rt[j - 1]));
                    let t = choose|t: int| 0 <= t < tail.len() && tail[t] == rt[j - 1];
                    assert(s[t + 1] == rt[j - 1]);
                }
            }
        }
        assert forall|i: int, j: int| 0 <= i < j < r.len() implies r[i] != r[j] by {
            if i == 0 {
                if r[j] == v {
                } else {
                    assert(tail.contains(rt[j - 1]));
                }
            }
        }
        assert(forall|i: int| 0 <= i < r.len() ==> (#[trigger] r[i]) < k + 1);
    }
}

/// Structural facts about inserting into a ranked (but arbitrary-content)
/// sequence: the result holds the same entries plus the new one, in rank
/// order, without introducing repetition.
proof fn lemma_insert_ranked_partial(maxes: Seq<BlockInfo>, v: usize, s: Seq<usize>)
    requires
        forall|i: int, j: int|
            0 <= i < j < s.len() ==> prefer(maxes, #[trigger] s[i] as int, #[trigger] s[j] as int),
        forall|i: int, j: int| 0 <= i < j < s.len() ==> s[i] != s[j],
        forall|i: int| 0 <= i < s.len() ==> (#[trigger] s[i]) != v,
        forall|i: int| 0 <= i < s.len() ==> prefer(maxes, #[trigger] s[i] as int, v as int) || prefer(
            maxes,
            v as int,
            s[i] as int,
        ),
    ensures
        ({
            let r = insert_ranked(maxes, v, s);
            &&& r.len() == s.len() + 1
            &&& forall|i: int| 0 <= i < r.len() ==> s.contains(#[trigger] r[i]) || r[i] == v
            &&& r.contains(v)
            &&& forall|w: usize| s.contains(w) ==> #[trigger] r.contains(w)
            &&& forall|i: int, j: int|
                0 <= i < j < r.len() ==> prefer(maxes, #[trigger] r[i] as int, #[trigger] r[j] as int)
            &&& forall|i: int, j: int| 0 <= i < j < r.len() ==> r[i] != r[j]
        }),
    decreases s.len(),
{
    let r = insert_ranked(maxes, v, s);
    if s.len() == 0 {
        assert(r =~= seq![v]);
        assert(r[0] == v);
    } else if prefer(maxes, v as int, s[0] as int) {
        assert(r =~= seq![v] + s);
        assert(r[0] == v);
        assert forall|w: usize| s.contains(w) implies #[trigger] r.contains(w) by {
            let i = choose|i: int| 0 <= i < s.len() && s[i] == w;
            assert(r[i + 1] == w);
        }
        assert forall|i: int, j: int| 0 <= i < j < r.len() implies prefer(
            maxes,
            #[trigger] r[i] as int,
            #[trigger] r[j] as int,
        ) by {
            if i == 0 {
                if s[j - 1] != s[0] {
                    assert(prefer(maxes, s[0] as int, s[j - 1] as int) || j - 1 == 0);
                }
            }
        }
    } else {
        let tail = s.drop_first();
        let rt = insert_ranked(maxes, v, tail);
        assert(forall|i: int| 0 <= i < tail.len() ==> (#[trigger] tail[i]) == s[i + 1]);
        lemma_insert_ranked_partial(maxes, v, tail);
        assert(r =~= seq![s[0]] + rt);
        assert(prefer(maxes, s[0] as int, v as int)) by {
            lemma_prefer_total(maxes, s[0] as int, v as int);
        }
        assert forall|i: int| 0 <= i < r.len() implies s.contains(#[trigger] r[i]) || r[i] == v by {
            if i == 0 {
                assert(s[0] == r[0]);
            } else {
                if rt[i - 1] != v {
                    assert(tail.contains(rt[i - 1]));
                    let t = choose|t: int| 0 <= t < tail.len() && tail[t] == rt[i - 1];
                    assert(s[t + 1] == rt[i - 1]);
                }
            }
        }
        assert(r.contains(v)) by {
            let i = choose|i: int| 0 <= i < rt.len() && rt[i] == v;
            assert(r[i + 1] == v);
        }
        assert forall|w: usize| s.contains(w) implies #[trigger] r.contains(w) by {
            let i = choose|i: int| 0 <= i < s.len() && s[i] == w;
            if i == 0 {
                assert(r[0] == w);
            } else {
                assert(tail[i - 1] == w);
                assert(rt.contains(w));
                let j = choose|j: int| 0 <= j < rt.len() && rt[j] == w;
                assert(r[j + 1] == w);
            }
        }
        assert forall|i: int, j: int| 0 <= i < j < r.len() implies prefer(
            maxes,
            #[trigger] r[i] as int,
            #[trigger] r[j] as int,
        ) by {
            if i == 0 {
                if r[j] == v {
                } else {
                    assert(tail.contains(rt[j - 1]));
                    let t = choose|t: int| 0 <= t < tail.len() && tail[t] == rt[j - 1];
                    assert(s[t + 1] == rt[j - 1]);
                }
            }
        }
        assert forall|i: int, j: int| 0 <= i < j < r.len() implies r[i] != r[j] by {
            if i == 0 {
                if r[j] != v {
                    assert(tail.contains(rt[j - 1]));
                }
            }
        }
    }
}

/// The candidate order is the ranked permutation of all block indices.
pub proof fn lemma_sorted_order_props(maxes: Seq<BlockInfo>)
    requires
        maxes.len() <= usize::MAX,
    ensures
        is_ranked_perm(maxes, sorted_order(maxes), maxes.len()),
{
    lemma_ranked_upto_props(maxes, maxes.len());
}

proof fn lemma_ranked_upto_props(maxes: Seq<BlockInfo>, k: nat)
    requires
        k <= usize::MAX,
    ensures
        is_ranked_perm(maxes, ranked_upto(maxes, k), k),
    decreases k,
{
    if k > 0 {
        lemma_ranked_upto_props(maxes, (k - 1) as nat);
        let s = ranked_upto(maxes, (k - 1) as nat);
        assert forall|i: int| 0 <= i < s.len() implies prefer(maxes, #[trigger] s[i] as int, (k
            - 1) as int) || prefer(maxes, (k - 1) as int, s[i] as int) by {
            lemma_prefer_total(maxes, s[i] as int, (k - 1) as int);
        }
        lemma_insert_ranked(maxes, (k - 1) as usize, s, (k - 1) as nat);
    }
}

/// Find where `v` ranks in the already sorted prefix and insert it there.
fn insert_position(order: &Vec<usize>, maxes: &Vec<BlockInfo>, v: usize) -> (p: usize)
    requires
        forall|i: int| 0 <= i < order@.len() ==> (#[trigger] order@[i]) < maxes@.len(),
        v < maxes@.len(),
    ensures
        p <= order@.len(),
        forall|j: int| 0 <= j < p ==> prefer(maxes@, #[trigger] order@[j] as int, v as int),
        p < order@.len() ==> !prefer(maxes@, order@[p as int] as int, v as int),
{
    let n = order.len();
    let mut p: usize = 0;
    while p < n
        invariant
            p <= n,
            n == order@.len(),
            forall|i: int| 0 <= i < order@.len() ==> (#[trigger] order@[i]) < maxes@.len(),
            v < maxes@.len(),
            forall|j: int| 0 <= j < p ==> prefer(maxes@, #[trigger] order@[j] as int, v as int),
        decreases n - p,
    {
        let o = order[p];
        let keep_going = maxes[o].max > maxes[v].max || (maxes[o].max == maxes[v].max && o < v);
        if !keep_going {
            return p;
        }
        p = p + 1;
    }
    p
}

/// Rebuild `order` as the ranked permutation of the block indices
/// `0 .. maxes.len()`: a stable descending sort started from the identity
/// permutation.
pub fn sort_order(order: &mut Vec<usize>, maxes: &Vec<BlockInfo>)
    ensures
        final(order)@ == sorted_order(maxes@),
{
    let n = maxes.len();
    order.clear();
    let mut k: usize = 0;
    while k < n
        invariant
            k <= n,
            n == maxes@.len(),
            order@ == ranked_upto(maxes@, k as nat),
        decreases n - k,
    {
        proof {
            lemma_ranked_upto_props(maxes@, k as nat);
        }
        let p = insert_position(order, maxes, k);
        let ghost pre = order@;
        order.insert(p, k);
        proof {
            lemma_insert_at_position(maxes@, k, pre, p as int);
        }
        k = k + 1;
    }
}

/// Inserting at the first position whose entry is not ranked ahead of `v`
/// is what `insert_ranked` does.
proof fn lemma_insert_at_position(maxes: Seq<BlockInfo>, v: usize, s: Seq<usize>, p: int)
    requires
        0 <= p <= s.len(),
        forall|j: int| 0 <= j < p ==> prefer(maxes, #[trigger] s[j] as int, v as int),
        p < s.len() ==> !prefer(maxes, s[p] as int, v as int),
        forall|i: int| 0 <= i < s.len() ==> (#[trigger] s[i]) != v,
    ensures
        insert_ranked(maxes, v, s) == s.insert(p, v),
    decreases s.len(),
{
    if s.len() == 0 {
        assert(insert_ranked(maxes, v, s) =~= s.insert(0, v));
    } else if prefer(maxes, v as int, s[0] as int) {
        assert(p == 0) by {
            if p > 0 {
                assert(prefer(maxes, s[0] as int, v as int));
            }
        }
        assert(insert_ranked(maxes, v, s) =~= s.insert(0, v));
    } else {
        assert(prefer(maxes, s[0] as int, v as int)) by {
            lemma_prefer_total(maxes, s[0] as int, v as int);
        }
        assert(p >= 1) by {
            if p == 0 {
                assert(!prefer(maxes, s[0] as int, v as int));
            }
        }
        let tail = s.drop_first();
        assert(forall|i: int| 0 <= i < tail.len() ==> (#[trigger] tail[i]) == s[i + 1]);
        lemma_insert_at_position(maxes, v, tail, p - 1);
        assert(insert_ranked(maxes, v, s) =~= seq![s[0]] + tail.insert(p - 1, v));
        assert(seq![s[0]] + tail.insert(p - 1, v) =~= s.insert(p, v));
    }
}

} // verus!

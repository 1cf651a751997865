//! Stable ordering of items by a two-part key, largest first.
use vstd::prelude::*;

verus! {

/// Item `a` comes before item `b`: its key is larger (first part, then
/// second part), or the keys are equal and `a` came first.
pub open spec fn ranks_before(keys: Seq<(u64, u64)>, a: int, b: int) -> bool {
    ||| keys[a].0 > keys[b].0
    ||| keys[a].0 == keys[b].0 && keys[a].1 > keys[b].1
    ||| keys[a].0 == keys[b].0 && keys[a].1 == keys[b].1 && a < b
}

/// `order` lists the positions `lo..hi` of `keys`, each once, in ranking order.
pub open spec fn ranks_range(keys: Seq<(u64, u64)>, order: Seq<usize>, lo: int, hi: int) -> bool {
    &&& order.len() == hi - lo
    &&& forall|i: int| 0 <= i < order.len() ==> lo <= #[trigger] order[i] < hi
    &&& forall|p: int| lo <= p < hi ==> #[trigger] order.contains(p as usize)
    &&& forall|i: int, j: int| 0 <= i < j < order.len() ==> ranks_before(keys, order[i] as int, order[j] as int)
}

/// `order` lists every position of `keys` once, largest key first, equal
/// keys in their original order.
pub open spec fn is_ranking(keys: Seq<(u64, u64)>, order: Seq<usize>) -> bool {
    ranks_range(keys, order, 0, keys.len() as int)
}

/// A ranking lists each position once.
pub proof fn lemma_ranking_distinct(keys: Seq<(u64, u64)>, order: Seq<usize>)
    requires
        is_ranking(keys, order),
    ensures
        order.no_duplicates(),
{
    assert forall|i: int, j: int| 0 <= i < order.len() && 0 <= j < order.len() && i != j implies order[i]
        != order[j] by {
        if i < j {
            assert(ranks_before(keys, order[i] as int, order[j] as int));
        } else {
            assert(ranks_before(keys, order[j] as int, order[i] as int));
        }
    }
}

/// In a ranking, items with equal keys stand together: an item between two
/// with equal keys has that key too.
pub proof fn lemma_ranking_contiguous(keys: Seq<(u64, u64)>, order: Seq<usize>, a: int, b: int, c: int)
    requires
        is_ranking(keys, order),
        0 <= a < b < c < order.len(),
        keys[order[a] as int] == keys[order[c] as int],
    ensures
        keys[order[b] as int] == keys[order[c] as int],
{
    assert(ranks_before(keys, order[a] as int, order[b] as int));
    assert(ranks_before(keys, order[b] as int, order[c] as int));
}

/// There is one ranking of given keys.
pub proof fn lemma_ranking_unique(keys: Seq<(u64, u64)>, o1: Seq<usize>, o2: Seq<usize>)
    requires
        is_ranking(keys, o1),
        is_ranking(keys, o2),
    ensures
        o1 == o2,
{
    assert forall|i: int| 0 <= i < o1.len() implies o1[i] == o2[i] by {
        lemma_ranking_agree_upto(keys, o1, o2, i);
    }
    assert(o1 =~= o2);
}

proof fn lemma_ranking_agree_upto(keys: Seq<(u64, u64)>, o1: Seq<usize>, o2: Seq<usize>, i: int)
    requires
        is_ranking(keys, o1),
        is_ranking(keys, o2),
        0 <= i < o1.len(),
    ensures
        o1[i] == o2[i],
    decreases i,
{
    if i > 0 {
        lemma_ranking_agree_upto(keys, o1, o2, i - 1);
    }
    assert forall|k: int| 0 <= k < i implies o1[k] == o2[k] by {
        lemma_ranking_agree_upto(keys, o1, o2, k);
    }
    let a = o1[i];
    let b = o2[i];
    if a != b {
        assert(o1.contains((b as int) as usize));
        let j1 = choose|j: int| 0 <= j < o1.len() && o1[j] == b;
        assert(o2.contains((a as int) as usize));
        let j2 = choose|j: int| 0 <= j < o2.len() && o2[j] == a;
        if j1 < i {
            assert(o2[j1] == b);
            assert(ranks_before(keys, o2[j1] as int, o2[i] as int));
        }
        if j2 < i {
            assert(o1[j2] == a);
            assert(ranks_before(keys, o1[j2] as int, o1[i] as int));
        }
        assert(ranks_before(keys, a as int, b as int));
        assert(ranks_before(keys, b as int, a as int));
    }
}

/// The ranking of `keys[lo..hi]`.
fn rank_range(keys: &Vec<(u64, u64)>, lo: usize, hi: usize) -> (order: Vec<usize>)
    requires
        lo <= hi <= keys@.len(),
    ensures
        ranks_range(keys@, order@, lo as int, hi as int),
    decreases hi - lo,
{
    if hi - lo <= 1 {
        let mut v: Vec<usize> = Vec::new();
        if hi - lo == 1 {
            v.push(lo);
            assert(v@[0] == lo);
        }
        return v;
    }
    let mid = lo + (hi - lo) / 2;
    let left = rank_range(keys, lo, mid);
    let right = rank_range(keys, mid, hi);
    merge(keys, &left, &right, Ghost(lo as int), Ghost(mid as int), Ghost(hi as int))
}

/// Merges the rankings of two adjacent ranges.
fn merge(
    keys: &Vec<(u64, u64)>,
    left: &Vec<usize>,
    right: &Vec<usize>,
    lo: Ghost<int>,
    mid: Ghost<int>,
    hi: Ghost<int>,
) -> (out: Vec<usize>)
    requires
        0 <= lo@ <= mid@ <= hi@ <= keys@.len(),
        ranks_range(keys@, left@, lo@, mid@),
        ranks_range(keys@, right@, mid@, hi@),
    ensures
        ranks_range(keys@, out@, lo@, hi@),
{
    let mut out: Vec<usize> = Vec::new();
    let mut i: usize = 0;
    let mut j: usize = 0;
    while i < left.len() || j < right.len()
        invariant
            0 <= lo@ <= mid@ <= hi@ <= keys@.len(),
            ranks_range(keys@, left@, lo@, mid@),
            ranks_range(keys@, right@, mid@, hi@),
            i <= left@.len(),
            j <= right@.len(),
            out@.len() == i + j,
            forall|k: int| 0 <= k < out@.len() ==> lo@ <= #[trigger] out@[k] < hi@,
            forall|l: int| 0 <= l < i ==> out@.contains(#[trigger] left@[l]),
            forall|l: int| 0 <= l < j ==> out@.contains(#[trigger] right@[l]),
            forall|k: int, l: int|
                0 <= k < l < out@.len() ==> ranks_before(keys@, out@[k] as int, out@[l] as int),
            out@.len() > 0 ==> forall|l: int|
                i <= l < left@.len() ==> ranks_before(keys@, out@.last() as int, #[trigger] left@[l] as int),
            out@.len() > 0 ==> forall|l: int|
                j <= l < right@.len() ==> ranks_before(keys@, out@.last() as int, #[trigger] right@[l] as int),
        decreases left@.len() + right@.len() - i - j,
    {
        let ghost i0 = i;
        let ghost j0 = j;
        let take_left = if i < left.len() && j < right.len() {
            let a = left[i];
            let b = right[j];
            let ka = keys[a];
            let kb = keys[b];
            ka.0 > kb.0 || (ka.0 == kb.0 && (ka.1 > kb.1 || (ka.1 == kb.1 && a < b)))
        } else {
            i < left.len()
        };
        let ghost prev = out@;
        if take_left {
            let a = left[i];
            proof {
                assert forall|l: int| j <= l < right@.len() implies ranks_before(
                    keys@,
                    a as int,
                    #[trigger] right@[l] as int,
                ) by {
                    if l > j as int {
                        assert(ranks_before(keys@, right@[j as int] as int, right@[l] as int));
                    }
                }
                assert forall|l: int| i < l < left@.len() implies ranks_before(
                    keys@,
                    a as int,
                    #[trigger] left@[l] as int,
                ) by {}
            }
            out.push(a);
            i = i + 1;
        } else {
            let b = right[j];
            proof {
                assert forall|l: int| i <= l < left@.len() implies ranks_before(
                    keys@,
                    b as int,
                    #[trigger] left@[l] as int,
                ) by {
                    assert(left@[i as int] != b);
                    if l > i as int {
                        assert(ranks_before(keys@, left@[i as int] as int, left@[l] as int));
                    }
                }
                assert forall|l: int| j < l < right@.len() implies ranks_before(
                    keys@,
                    b as int,
                    #[trigger] right@[l] as int,
                ) by {}
            }
            out.push(b);
            j = j + 1;
        }
        proof {
            assert forall|l: int| 0 <= l < i implies out@.contains(#[trigger] left@[l]) by {
                if l < i - 1 || !take_left {
                    let w = choose|w: int| 0 <= w < prev.len() && prev[w] == left@[l];
                    assert(out@[w] == left@[l]);
                } else {
                    assert(out@[out@.len() - 1] == left@[l]);
                }
            }
            assert forall|l: int| 0 <= l < j implies out@.contains(#[trigger] right@[l]) by {
                if l < j - 1 || take_left {
                    let w = choose|w: int| 0 <= w < prev.len() && prev[w] == right@[l];
                    assert(out@[w] == right@[l]);
                } else {
                    assert(out@[out@.len() - 1] == right@[l]);
                }
            }
            assert forall|k: int, l: int| 0 <= k < l < out@.len() implies ranks_before(
                keys@,
                out@[k] as int,
                out@[l] as int,
            ) by {
                if l == out@.len() - 1 && k < prev.len() {
                    assert(out@[k] == prev[k]);
                    if k < prev.len() - 1 {
                        assert(ranks_before(keys@, prev[k] as int, prev.last() as int));
                    }
                }
            }
        }
    }
    proof {
        assert forall|p: int| lo@ <= p < hi@ implies #[trigger] out@.contains(p as usize) by {
            if p < mid@ {
                assert(left@.contains(p as usize));
                let l = choose|l: int| 0 <= l < left@.len() && left@[l] == p as usize;
                assert(out@.contains(left@[l]));
            } else {
                assert(right@.contains(p as usize));
                let l = choose|l: int| 0 <= l < right@.len() && right@[l] == p as usize;
                assert(out@.contains(right@[l]));
            }
        }
    }
    out
}

/// The ranking of all of `keys`: every position once, largest key first,
/// equal keys in their original order.
pub fn rank_desc(keys: &Vec<(u64, u64)>) -> (order: Vec<usize>)
    ensures
        is_ranking(keys@, order@),
{
    rank_range(keys, 0, keys.len())
}

} // verus!

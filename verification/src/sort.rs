//! A stable sort of keyed items.
use vstd::prelude::*;
use vstd::multiset::Multiset;

verus! {

/// Keys are non-decreasing along the sequence.
pub open spec fn sorted_by_key<T>(s: Seq<(i128, T)>) -> bool {
    forall|i: int, j: int| 0 <= i < j < s.len() ==> #[trigger] s[i].0 <= #[trigger] s[j].0
}

/// `res` is `items` rearranged, item `i` of `res` being item `p[i]` of `items`, with
/// items of equal keys in the order they had.
pub open spec fn stable_rearrangement<T>(items: Seq<(i128, T)>, res: Seq<(i128, T)>, p: Seq<int>) -> bool {
    &&& p.len() == res.len() == items.len()
    &&& forall|i: int| 0 <= i < p.len() ==> 0 <= #[trigger] p[i] < items.len() && res[i] == items[p[i]]
    &&& forall|i: int, j: int| 0 <= i < j < p.len() ==> #[trigger] p[i] != #[trigger] p[j]
    &&& forall|i: int, j: int| 0 <= i < j < p.len() && #[trigger] res[i].0 == #[trigger] res[j].0 ==> p[i] < p[j]
}

/// Sorts by key, ascending; items with equal keys keep their relative order.
pub fn sort_by_key_stable<T>(items: Vec<(i128, T)>) -> (res: Vec<(i128, T)>)
    ensures
        sorted_by_key(res@),
        res@.to_multiset() == items@.to_multiset(),
        res@.len() == items@.len(),
        exists|p: Seq<int>| stable_rearrangement(items@, res@, p),
{
    broadcast use vstd::seq_lib::group_to_multiset_ensures, vstd::multiset::group_multiset_axioms;

    let ghost all = items@;
    let mut rest = items;
    let mut res: Vec<(i128, T)> = Vec::new();
    let ghost mut p: Seq<int> = Seq::empty();
    let ghost mut k: int = 0;
    while rest.len() > 0
        invariant
            sorted_by_key(res@),
            res@.to_multiset().add(rest@.to_multiset()) == all.to_multiset(),
            res@.len() + rest@.len() == all.len(),
            0 <= k <= all.len(),
            rest@ == all.subrange(k, all.len() as int),
            p.len() == res@.len() == k,
            forall|i: int| 0 <= i < p.len() ==> 0 <= #[trigger] p[i] < k && res@[i] == all[p[i]],
            forall|i: int, j: int| 0 <= i < j < p.len() ==> #[trigger] p[i] != #[trigger] p[j],
            forall|i: int, j: int| 0 <= i < j < p.len() && #[trigger] res@[i].0 == #[trigger] res@[j].0 ==> p[i] < p[j],
        decreases rest@.len(),
    {
        let ghost r0 = rest@;
        let item = rest.remove(0);
        let key = item.0;
        let mut pos: usize = 0;
        while pos < res.len() && res[pos].0 <= key
            invariant
                0 <= pos <= res@.len(),
                forall|i: int| 0 <= i < pos ==> #[trigger] res@[i].0 <= key,
            decreases res@.len() - pos,
        {
            pos = pos + 1;
        }
        let ghost s0 = res@;
        let ghost p0 = p;
        res.insert(pos, item);
        proof {
            assert(item == all[k]);
            p = p0.insert(pos as int, k);
            assert forall|i: int| 0 <= i < p.len() implies 0 <= #[trigger] p[i] < k + 1 && res@[i] == all[p[i]] by {
                if i < pos {
                    assert(p[i] == p0[i]);
                } else if i > pos {
                    assert(p[i] == p0[i - 1]);
                    assert(res@[i] == s0[i - 1]);
                }
            }
            assert forall|i: int, j: int| 0 <= i < j < p.len() implies #[trigger] p[i] != #[trigger] p[j] by {
                if i < pos && j > pos {
                    assert(p[j] == p0[j - 1]);
                } else if i > pos {
                    assert(p[i] == p0[i - 1]);
                    assert(p[j] == p0[j - 1]);
                } else if j < pos {
                } else if i == pos {
                    assert(p[j] == p0[j - 1]);
                } else {
                    assert(p[i] == p0[i]);
                }
            }
            assert forall|i: int, j: int| 0 <= i < j < p.len() && #[trigger] res@[i].0 == #[trigger] res@[j].0 implies p[i] < p[j] by {
                if pos < s0.len() {
                    assert(s0[pos as int].0 > key);
                }
                if i < pos && j == pos {
                    assert(p[i] == p0[i]);
                } else if i < pos && j > pos {
                    assert(p[j] == p0[j - 1]);
                    assert(res@[j] == s0[j - 1]);
                } else if i == pos {
                    assert(res@[j] == s0[j - 1]);
                    assert(s0[pos as int].0 <= s0[j - 1].0);
                } else if i > pos {
                    assert(p[i] == p0[i - 1]);
                    assert(p[j] == p0[j - 1]);
                    assert(res@[j] == s0[j - 1]);
                    assert(res@[i] == s0[i - 1]);
                } else {
                    assert(p[i] == p0[i]);
                    assert(p[j] == p0[j]);
                }
            }
            k = k + 1;
            assert(rest@ =~= all.subrange(k, all.len() as int));
            assert(rest@ == r0.remove(0));
            vstd::seq_lib::to_multiset_remove(r0, 0);
            assert(rest@.to_multiset() == r0.to_multiset().remove(item));
            assert(res@ == s0.insert(pos as int, item));
            vstd::seq_lib::to_multiset_insert(s0, pos as int, item);
            assert(res@.to_multiset() == s0.to_multiset().insert(item));
            assert(r0.contains(item)) by {
                assert(r0[0] == item);
            }
            vstd::seq_lib::to_multiset_contains(r0, item);
            assert(r0.to_multiset().count(item) > 0);
            assert forall|i: int, j: int| 0 <= i < j < res@.len() implies #[trigger] res@[i].0 <= #[trigger] res@[j].0 by {
                if pos < s0.len() {
                    assert(s0[pos as int].0 > key);
                }
                if i < pos && j == pos {
                } else if i < pos && j > pos {
                    assert(res@[j] == s0[j - 1]);
                } else if i == pos {
                    assert(res@[j] == s0[j - 1]);
                    assert(s0[pos as int].0 <= s0[j - 1].0);
                } else if i > pos {
                    assert(res@[j] == s0[j - 1]);
                    assert(res@[i] == s0[i - 1]);
                }
            }
            assert(res@.to_multiset().add(rest@.to_multiset()) =~= all.to_multiset());
        }
    }
    proof {
        assert(stable_rearrangement(all, res@, p));
    }
    res
}

} // verus!

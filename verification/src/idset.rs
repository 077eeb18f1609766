//! Turning a list of collected ids into a sorted list without duplicates.

use crate::interval::ascending;
use crate::interval::strictly_increasing;
use vstd::prelude::*;

verus! {

/// `<[i64]>::sort_unstable`, which sorts in place and in ascending order:
/// afterwards no element is larger than one after it, and each value occurs
/// as often as before.
#[verifier::external_body]
pub(crate) fn sort_ids(ids: &mut Vec<i64>)
    ensures
        ascending(final(ids)@),
        final(ids)@.to_multiset() == old(ids)@.to_multiset(),
{
    ids.sort_unstable();
}

/// What is left of `s` when every element that equals the one before it is
/// taken out.
pub open spec fn without_repeats(s: Seq<i64>) -> Seq<i64>
    decreases s.len(),
{
    if s.len() <= 1 {
        s
    } else if s.last() == s[s.len() - 2] {
        without_repeats(s.drop_last())
    } else {
        without_repeats(s.drop_last()).push(s.last())
    }
}

/// Taking the repeats out keeps the last element in its place at the end, and
/// does not lengthen the sequence.
pub proof fn lemma_without_repeats_last(s: Seq<i64>)
    requires
        s.len() > 0,
    ensures
        0 < without_repeats(s).len() <= s.len(),
        without_repeats(s).last() == s.last(),
    decreases s.len(),
{
    if s.len() > 1 {
        lemma_without_repeats_last(s.drop_last());
    }
}

/// Of an ascending sequence, taking the repeats out leaves each value once, in
/// the same order.
pub proof fn lemma_without_repeats_of_ascending(s: Seq<i64>)
    requires
        ascending(s),
    ensures
        strictly_increasing(without_repeats(s)),
        without_repeats(s).to_set() == s.to_set(),
    decreases s.len(),
{
    let out = without_repeats(s);
    if s.len() > 1 {
        let init = s.drop_last();
        let before = without_repeats(init);
        assert(ascending(init)) by {
            assert forall|i: int, j: int| 0 <= i < j < init.len() implies init[i] <= init[j] by {
                assert(s[i] <= s[j]);
            }
        }
        lemma_without_repeats_of_ascending(init);
        lemma_without_repeats_last(init);
        assert(s[s.len() - 2] <= s[s.len() - 1]);
        assert(before.last() == s[s.len() - 2]);
        if s.last() != s[s.len() - 2] {
            assert forall|i: int, j: int| 0 <= i < j < out.len() implies out[i] < out[j] by {
                if j == out.len() - 1 {
                    if i < before.len() - 1 {
                        assert(before[i] < before[before.len() - 1]);
                    }
                }
            }
        }
        assert forall|v: i64| out.to_set().contains(v) <==> s.to_set().contains(v) by {
            if out.to_set().contains(v) {
                let i = choose|i: int| 0 <= i < out.len() && out[i] == v;
                if i < before.len() {
                    assert(before.to_set().contains(before[i]));
                    assert(init.to_set().contains(v));
                    let k = choose|k: int| 0 <= k < init.len() && init[k] == v;
                    assert(s[k] == v);
                } else {
                    assert(v == s[s.len() - 1]);
                }
            }
            if s.to_set().contains(v) {
                let k = choose|k: int| 0 <= k < s.len() && s[k] == v;
                if k < init.len() {
                    assert(init[k] == v);
                    assert(init.to_set().contains(v));
                    assert(before.to_set().contains(v));
                    let i = choose|i: int| 0 <= i < before.len() && before[i] == v;
                    assert(out[i] == v);
                } else if s.last() == s[s.len() - 2] {
                    assert(out[before.len() - 1] == v);
                } else {
                    assert(out[out.len() - 1] == v);
                }
            }
        }
        assert(out.to_set() =~= s.to_set());
    }
}

/// Removes, in place, every element that equals the one before it.
pub fn dedup(ids: &mut Vec<i64>)
    ensures
        final(ids)@ == without_repeats(old(ids)@),
{
    if ids.len() <= 1 {
        return ;
    }
    let mut kept: usize = 1;
    let mut next: usize = 1;
    while next < ids.len()
        invariant
            1 <= kept <= next <= ids@.len(),
            ids@.len() == old(ids)@.len(),
            ids@.take(kept as int) == without_repeats(old(ids)@.take(next as int)),
            forall|k: int| next <= k < ids@.len() ==> ids@[k] == old(ids)@[k],
        decreases ids@.len() - next,
    {
        let value: i64 = ids[next];
        let last_kept: i64 = ids[kept - 1];
        proof {
            let seen = old(ids)@.take(next as int);
            let more = old(ids)@.take(next + 1);
            lemma_without_repeats_last(seen);
            assert(more.drop_last() =~= seen);
            assert(ids@.take(kept as int).last() == last_kept);
            assert(seen.last() == more[more.len() - 2]);
        }
        if value != last_kept {
            ids.set(kept, value);
            proof {
                assert(ids@.take(kept + 1) =~= without_repeats(old(ids)@.take(next as int)).push(
                    value,
                ));
            }
            kept += 1;
        } else {
            proof {
                assert(ids@.take(kept as int) == without_repeats(old(ids)@.take(next + 1)));
            }
        }
        next += 1;
    }
    ids.truncate(kept);
    assert(old(ids)@.take(next as int) =~= old(ids)@);
}

/// Two sequences that hold each value equally often hold the same values.
proof fn lemma_same_elements(sorted: Seq<i64>, collected: Seq<i64>)
    requires
        sorted.to_multiset() == collected.to_multiset(),
    ensures
        sorted.to_set() == collected.to_set(),
{
    sorted.to_multiset_ensures();
    collected.to_multiset_ensures();
    assert forall|id: i64| sorted.to_set().contains(id) <==> collected.to_set().contains(id) by {
        assert(sorted.contains(id) <==> sorted.to_multiset().count(id) > 0);
        assert(collected.contains(id) <==> collected.to_multiset().count(id) > 0);
    }
    assert(sorted.to_set() =~= collected.to_set());
}

/// Sorts the ids and keeps each of them once: afterwards the list is strictly
/// increasing and holds the same ids as before.
pub fn sort_and_dedup(ids: &mut Vec<i64>)
    ensures
        strictly_increasing(final(ids)@),
        final(ids)@.to_set() == old(ids)@.to_set(),
{
    sort_ids(ids);
    let ghost sorted = ids@;
    dedup(ids);
    proof {
        lemma_same_elements(sorted, old(ids)@);
        lemma_without_repeats_of_ascending(sorted);
    }
}

} // verus!

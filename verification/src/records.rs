//! What a block holds, as contracts speak of it: its ways, its points, the
//! ids they carry and the ids they refer to, and the tests that pick records
//! out.

use crate::element::Element;
use crate::element::PrimitiveGroup;
use crate::element::Way;
use vstd::prelude::*;

verus! {

/// The ways of a group, in order.
pub open spec fn group_ways<'a>(group: &'a PrimitiveGroup) -> Seq<Element<'a>> {
    Seq::new(group.ways@.len(), |i: int| Element::Way(&group.ways@[i]))
}

/// The points of a group: its nodes in order, then the entries of its dense
/// batch in order.
pub open spec fn group_points<'a>(group: &'a PrimitiveGroup) -> Seq<Element<'a>> {
    Seq::new(group.nodes@.len(), |i: int| Element::Node(&group.nodes@[i])) + Seq::new(
        group.dense_nodes@.len(),
        |i: int| Element::DenseNode(&group.dense_nodes@[i]),
    )
}

/// The ways of some groups, group by group.
pub open spec fn ways_in<'a>(groups: Seq<PrimitiveGroup>) -> Seq<Element<'a>>
    decreases groups.len(),
{
    if groups.len() == 0 {
        Seq::empty()
    } else {
        ways_in(groups.drop_last()) + group_ways(&groups.last())
    }
}

/// The points of some groups, group by group.
pub open spec fn points_in<'a>(groups: Seq<PrimitiveGroup>) -> Seq<Element<'a>>
    decreases groups.len(),
{
    if groups.len() == 0 {
        Seq::empty()
    } else {
        points_in(groups.drop_last()) + group_points(&groups.last())
    }
}

/// The records of the groups up to and including group `g` are those of the
/// groups before it, then those of group `g`.
pub proof fn lemma_group_added(groups: Seq<PrimitiveGroup>, g: int)
    requires
        0 <= g < groups.len(),
    ensures
        ways_in(groups.take(g + 1)) == ways_in(groups.take(g)) + group_ways(&groups[g]),
        points_in(groups.take(g + 1)) == points_in(groups.take(g)) + group_points(&groups[g]),
{
    assert(groups.take(g + 1).drop_last() =~= groups.take(g));
}

/// The ways of some groups are ways, and their points are points.
pub proof fn lemma_kinds_of_elements(groups: Seq<PrimitiveGroup>)
    ensures
        forall|i: int| 0 <= i < ways_in(groups).len() ==> #[trigger] ways_in(groups)[i] is Way,
        forall|i: int|
            0 <= i < points_in(groups).len() ==> (#[trigger] points_in(groups)[i]).is_point(),
    decreases groups.len(),
{
    if groups.len() > 0 {
        let init = groups.drop_last();
        let last = groups.last();
        lemma_kinds_of_elements(init);
        assert forall|i: int| 0 <= i < points_in(groups).len() implies (#[trigger] points_in(
            groups,
        )[i]).is_point() by {
            if i >= points_in(init).len() {
                let k = i - points_in(init).len();
                assert(points_in(groups)[i] == group_points(&last)[k]);
                if k < last.nodes@.len() {
                    assert(group_points(&last)[k] == Element::Node(&last.nodes@[k]));
                } else {
                    assert(group_points(&last)[k] == Element::DenseNode(
                        &last.dense_nodes@[k - last.nodes@.len()],
                    ));
                }
            } else {
                assert(points_in(groups)[i] == points_in(init)[i]);
            }
        }
    }
}

/// The point ids that a record refers to: the reference list of a way, and
/// nothing for a point.
pub open spec fn element_refs(element: Element) -> Seq<i64> {
    match element {
        Element::Way(way) => way.refs@,
        _ => Seq::empty(),
    }
}

/// The point ids that some records refer to, record by record. An id occurs
/// as often as it is referred to.
pub open spec fn refs_in(elements: Seq<Element>) -> Seq<i64>
    decreases elements.len(),
{
    if elements.len() == 0 {
        Seq::empty()
    } else {
        refs_in(elements.drop_last()) + element_refs(elements.last())
    }
}

/// The references of two runs of records are those of the first run, then
/// those of the second.
pub proof fn lemma_refs_in_add(first: Seq<Element>, second: Seq<Element>)
    ensures
        refs_in(first + second) == refs_in(first) + refs_in(second),
    decreases second.len(),
{
    if second.len() == 0 {
        assert(first + second =~= first);
        assert(refs_in(first) + refs_in(second) =~= refs_in(first));
    } else {
        lemma_refs_in_add(first, second.drop_last());
        assert((first + second).drop_last() =~= first + second.drop_last());
        assert(refs_in(first + second) =~= refs_in(first) + refs_in(second));
    }
}

/// The ids of some records, in order.
pub open spec fn ids_of(elements: Seq<Element>) -> Seq<i64> {
    elements.map_values(|element: Element| element.spec_id())
}

/// `lowest` and `highest` are the least and the greatest of `ids`.
pub open spec fn bounds(ids: Seq<i64>, lowest: i64, highest: i64) -> bool {
    &&& ids.contains(lowest)
    &&& ids.contains(highest)
    &&& forall|i: int| 0 <= i < ids.len() ==> lowest <= #[trigger] ids[i] <= highest
}

/// The least and the greatest of `ids`, if there is any id.
pub open spec fn id_bounds(ids: Seq<i64>) -> Option<(i64, i64)> {
    if ids.len() == 0 {
        None
    } else {
        Some(choose|found: (i64, i64)| bounds(ids, found.0, found.1))
    }
}

/// A sequence has one least and one greatest element at most.
pub proof fn lemma_bounds_unique(ids: Seq<i64>, lowest: i64, highest: i64)
    requires
        bounds(ids, lowest, highest),
    ensures
        id_bounds(ids) == Some((lowest, highest)),
{
    let found = choose|found: (i64, i64)| bounds(ids, found.0, found.1);
    assert(bounds(ids, (lowest, highest).0, (lowest, highest).1));
    let i = choose|i: int| 0 <= i < ids.len() && ids[i] == lowest;
    let j = choose|j: int| 0 <= j < ids.len() && ids[j] == highest;
    let k = choose|k: int| 0 <= k < ids.len() && ids[k] == found.0;
    let m = choose|m: int| 0 <= m < ids.len() && ids[m] == found.1;
    assert(found.0 <= ids[i] && lowest <= ids[k]);
    assert(ids[j] <= found.1 && ids[m] <= highest);
}

/// A sequence that is not empty has a least and a greatest element.
pub proof fn lemma_bounds_exist(ids: Seq<i64>)
    requires
        ids.len() > 0,
    ensures
        id_bounds(ids) matches Some((lowest, highest)) && bounds(ids, lowest, highest),
    decreases ids.len(),
{
    let last = ids.last();
    if ids.len() == 1 {
        assert(ids[0] == last);
        assert(bounds(ids, (last, last).0, (last, last).1));
    } else {
        let init = ids.drop_last();
        lemma_bounds_exist(init);
        let (low, high) = id_bounds(init)->0;
        let lowest = if last < low {
            last
        } else {
            low
        };
        let highest = if last > high {
            last
        } else {
            high
        };
        let i = choose|i: int| 0 <= i < init.len() && init[i] == low;
        let j = choose|j: int| 0 <= j < init.len() && init[j] == high;
        assert(ids[i] == low && ids[j] == high && ids[ids.len() - 1] == last);
        assert forall|k: int| 0 <= k < ids.len() implies lowest <= #[trigger] ids[k] <= highest by {
            if k < init.len() {
                assert(low <= init[k] <= high);
            }
        }
        assert(bounds(ids, (lowest, highest).0, (lowest, highest).1));
    }
}

/// The decision that a filter takes on each way: whether it may answer `true`.
pub open spec fn decision<F: Fn(&Way) -> bool>(filter: F) -> spec_fn(Way) -> bool {
    |way: Way| call_ensures(filter, (&way,), true)
}

/// The filter can be asked about every way, and never answers both `true` and
/// `false` for the same way.
pub open spec fn decides<F: Fn(&Way) -> bool>(filter: F) -> bool {
    &&& forall|way: &Way| #[trigger] call_requires(filter, (way,))
    &&& forall|way: &Way|
        !(#[trigger] call_ensures(filter, (way,), true) && call_ensures(filter, (way,), false))
}

/// The filter has given its answer on every way among `elements`.
pub open spec fn all_answered<F: Fn(&Way) -> bool>(filter: F, elements: Seq<Element>) -> bool {
    forall|i: int|
        0 <= i < elements.len() ==> (#[trigger] elements[i] matches Element::Way(way) ==> (
        call_ensures(filter, (way,), true) || call_ensures(filter, (way,), false)))
}

/// The test that lets the ways pass that `wanted` holds of, and no point.
pub open spec fn accepts<'a>(wanted: spec_fn(Way) -> bool) -> spec_fn(Element<'a>) -> bool {
    |element: Element|
        match element {
            Element::Way(way) => wanted(*way),
            _ => false,
        }
}

/// The test that lets the records pass whose id is in `ids`.
pub open spec fn id_in<'a>(ids: Set<i64>) -> spec_fn(Element<'a>) -> bool {
    |element: Element| ids.contains(element.spec_id())
}

/// The test that lets the records pass whose id is in `ids` and lies between
/// `lowest` and `highest`, both included.
pub open spec fn id_in_range<'a>(ids: Set<i64>, lowest: i64, highest: i64) -> spec_fn(
    Element<'a>,
) -> bool {
    |element: Element| ids.contains(element.spec_id()) && lowest <= element.spec_id() <= highest
}

} // verus!

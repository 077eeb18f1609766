//! The laws of a query: what holds of everything it delivers, whatever the
//! container, the filter and the id ranges that the index held before.

use crate::element::Element;
use crate::element::PrimitiveBlock;
use crate::element::Way;
use crate::filtering::lemma_filter_keeps;
use crate::filtering::lemma_filter_none;
use crate::filtering::lemma_filter_twice;
use crate::index::fresh_index;
use crate::index::BlockFrame;
use crate::index::BlockKind;
use crate::index::DescriptorView;
use crate::query::accepted_ways;
use crate::query::dependent_points;
use crate::query::kinds_of;
use crate::query::lemma_query_delivers;
use crate::query::points_from;
use crate::query::query_delivers;
use crate::query::query_leaves;
use crate::query::referenced;
use crate::query::ways_from;
use crate::records::accepts;
use crate::records::id_in;
use crate::records::lemma_kinds_of_elements;
use crate::records::points_in;
use crate::records::ways_in;
use vstd::prelude::*;

verus! {

/// The ways of a container are ways, and its points are points.
pub proof fn lemma_kinds_of_stored(kinds: Seq<BlockKind>, blocks: Seq<PrimitiveBlock>, from: nat)
    requires
        blocks.len() == kinds.len(),
    ensures
        forall|i: int|
            0 <= i < ways_from(kinds, blocks, from).len() ==> #[trigger] ways_from(
                kinds,
                blocks,
                from,
            )[i] is Way,
        forall|i: int|
            0 <= i < points_from(kinds, blocks, from).len() ==> (#[trigger] points_from(
                kinds,
                blocks,
                from,
            )[i]).is_point(),
    decreases kinds.len() - from,
{
    if from < kinds.len() {
        let here = blocks[from as int].groups@;
        lemma_kinds_of_stored(kinds, blocks, from + 1);
        lemma_kinds_of_elements(here);
        if kinds[from as int] == BlockKind::RecordBatch {
            assert forall|i: int|
                0 <= i < ways_from(kinds, blocks, from).len() implies #[trigger] ways_from(
                kinds,
                blocks,
                from,
            )[i] is Way by {
                if i < ways_in(here).len() {
                    assert(ways_from(kinds, blocks, from)[i] == ways_in(here)[i]);
                } else {
                    assert(ways_from(kinds, blocks, from)[i] == ways_from(kinds, blocks, from + 1)[i
                        - ways_in(here).len()]);
                }
            }
            assert forall|i: int|
                0 <= i < points_from(kinds, blocks, from).len() implies (#[trigger] points_from(
                kinds,
                blocks,
                from,
            )[i]).is_point() by {
                if i < points_in(here).len() {
                    assert(points_from(kinds, blocks, from)[i] == points_in(here)[i]);
                } else {
                    assert(points_from(kinds, blocks, from)[i] == points_from(
                        kinds,
                        blocks,
                        from + 1,
                    )[i - points_in(here).len()]);
                }
            }
        } else {
            assert(ways_from(kinds, blocks, from) == ways_from(kinds, blocks, from + 1));
            assert(points_from(kinds, blocks, from) == points_from(kinds, blocks, from + 1));
        }
    }
}

/// The test that lets the points with the id `id` pass, and no way.
pub open spec fn point_with_id<'a>(id: i64) -> spec_fn(Element<'a>) -> bool {
    |element: Element| element.is_point() && element.spec_id() == id
}

/// What a query delivers falls into two parts: the accepted ways, which are
/// all ways, and then the dependent points, which are all points.
pub proof fn lemma_two_parts(
    index: Seq<DescriptorView>,
    blocks: Seq<PrimitiveBlock>,
    wanted: spec_fn(Way) -> bool,
)
    requires
        blocks.len() == index.len(),
    ensures
        ({
            let delivered = query_delivers(index, blocks, wanted);
            let ways = accepted_ways(kinds_of(index), blocks, wanted);
            let points = dependent_points(kinds_of(index), blocks, wanted);
            &&& delivered == ways + points
            &&& forall|i: int| 0 <= i < ways.len() ==> #[trigger] ways[i] is Way
            &&& forall|i: int| 0 <= i < points.len() ==> (#[trigger] points[i]).is_point()
            &&& forall|i: int|
                0 <= i < points.len() ==> referenced(kinds_of(index), blocks, wanted).contains(
                    (#[trigger] points[i]).spec_id(),
                )
        }),
{
    let kinds = kinds_of(index);
    let ids = referenced(kinds, blocks, wanted);
    lemma_query_delivers(index, blocks, wanted);
    lemma_kinds_of_stored(kinds, blocks, 0);
    lemma_filter_keeps(
        ways_from(kinds, blocks, 0),
        accepts(wanted),
        |element: Element| element is Way,
    );
    lemma_filter_keeps(
        points_from(kinds, blocks, 0),
        id_in(ids),
        |element: Element| element.is_point(),
    );
    let stored = points_from(kinds, blocks, 0);
    assert forall|i: int| 0 <= i < stored.filter(id_in(ids)).len() implies ids.contains(
        (#[trigger] stored.filter(id_in(ids))[i]).spec_id(),
    ) by {
        stored.lemma_filter_pred(id_in(ids), i);
    }
}

/// Every point that an accepted way refers to is delivered as often as the
/// container holds a point with its id, however many accepted ways refer to
/// it and however often one way does.
pub proof fn lemma_referenced_points_delivered(
    index: Seq<DescriptorView>,
    blocks: Seq<PrimitiveBlock>,
    wanted: spec_fn(Way) -> bool,
    id: i64,
)
    requires
        blocks.len() == index.len(),
        referenced(kinds_of(index), blocks, wanted).contains(id),
    ensures
        query_delivers(index, blocks, wanted).filter(point_with_id(id)) == points_from(
            kinds_of(index),
            blocks,
            0,
        ).filter(point_with_id(id)),
{
    let kinds = kinds_of(index);
    let ids = referenced(kinds, blocks, wanted);
    let ways = accepted_ways(kinds, blocks, wanted);
    let stored = points_from(kinds, blocks, 0);
    let test = point_with_id(id);
    lemma_two_parts(index, blocks, wanted);
    Seq::filter_distributes_over_add(ways, stored.filter(id_in(ids)), test);
    lemma_filter_none(ways, test);
    lemma_filter_twice(stored, id_in(ids), test, test);
    assert(ways.filter(test) + stored.filter(id_in(ids)).filter(test) =~= stored.filter(test));
}

/// Every point that an accepted way refers to and that the container holds
/// once is delivered exactly once.
pub proof fn lemma_referenced_point_delivered_once(
    index: Seq<DescriptorView>,
    blocks: Seq<PrimitiveBlock>,
    wanted: spec_fn(Way) -> bool,
    id: i64,
)
    requires
        blocks.len() == index.len(),
        referenced(kinds_of(index), blocks, wanted).contains(id),
        points_from(kinds_of(index), blocks, 0).filter(point_with_id(id)).len() == 1,
    ensures
        query_delivers(index, blocks, wanted).filter(point_with_id(id)).len() == 1,
{
    lemma_referenced_points_delivered(index, blocks, wanted, id);
}

/// No point is delivered that no accepted way refers to.
pub proof fn lemma_only_referenced_points_delivered(
    index: Seq<DescriptorView>,
    blocks: Seq<PrimitiveBlock>,
    wanted: spec_fn(Way) -> bool,
)
    requires
        blocks.len() == index.len(),
    ensures
        forall|i: int|
            0 <= i < query_delivers(index, blocks, wanted).len() && (#[trigger] query_delivers(
                index,
                blocks,
                wanted,
            )[i]).is_point() ==> referenced(kinds_of(index), blocks, wanted).contains(
                query_delivers(index, blocks, wanted)[i].spec_id(),
            ),
{
    let delivered = query_delivers(index, blocks, wanted);
    let ways = accepted_ways(kinds_of(index), blocks, wanted);
    let points = dependent_points(kinds_of(index), blocks, wanted);
    lemma_two_parts(index, blocks, wanted);
    assert forall|i: int|
        0 <= i < delivered.len() && (#[trigger] delivered[i]).is_point() implies referenced(
        kinds_of(index),
        blocks,
        wanted,
    ).contains(delivered[i].spec_id()) by {
        if i < ways.len() {
            assert(ways[i] is Way);
        } else {
            assert(delivered[i] == points[i - ways.len()]);
        }
    }
}

/// Every way is delivered before the first point: nothing that comes before
/// a way is a point.
pub proof fn lemma_ways_before_points(
    index: Seq<DescriptorView>,
    blocks: Seq<PrimitiveBlock>,
    wanted: spec_fn(Way) -> bool,
)
    requires
        blocks.len() == index.len(),
    ensures
        forall|i: int, j: int|
            0 <= i < j < query_delivers(index, blocks, wanted).len() && #[trigger] query_delivers(
                index,
                blocks,
                wanted,
            )[j] is Way ==> #[trigger] query_delivers(index, blocks, wanted)[i] is Way,
{
    let delivered = query_delivers(index, blocks, wanted);
    let ways = accepted_ways(kinds_of(index), blocks, wanted);
    let points = dependent_points(kinds_of(index), blocks, wanted);
    lemma_two_parts(index, blocks, wanted);
    assert forall|i: int, j: int|
        0 <= i < j < delivered.len() && #[trigger] delivered[j] is Way implies
        #[trigger] delivered[i] is Way by {
        if j >= ways.len() {
            assert(delivered[j] == points[j - ways.len()]);
            assert(points[j - ways.len()].is_point());
        }
        assert(delivered[i] == ways[i]);
    }
}

/// Two indexes that describe the same blocks make a query deliver the same,
/// whatever id ranges either of them holds.
pub proof fn lemma_id_ranges_make_no_difference(
    index: Seq<DescriptorView>,
    other: Seq<DescriptorView>,
    blocks: Seq<PrimitiveBlock>,
    wanted: spec_fn(Way) -> bool,
)
    requires
        blocks.len() == index.len(),
        kinds_of(other) == kinds_of(index),
    ensures
        query_delivers(other, blocks, wanted) == query_delivers(index, blocks, wanted),
{
    assert(other.len() == kinds_of(other).len());
    assert(index.len() == kinds_of(index).len());
    lemma_query_delivers(index, blocks, wanted);
    lemma_query_delivers(other, blocks, wanted);
}

/// The same query, asked again of the same container, delivers the same.
pub proof fn lemma_query_repeats(
    index: Seq<DescriptorView>,
    blocks: Seq<PrimitiveBlock>,
    wanted: spec_fn(Way) -> bool,
)
    requires
        blocks.len() == index.len(),
    ensures
        query_delivers(query_leaves(index, blocks, wanted), blocks, wanted) == query_delivers(
            index,
            blocks,
            wanted,
        ),
{
    lemma_query_delivers(index, blocks, wanted);
    lemma_id_ranges_make_no_difference(index, query_leaves(index, blocks, wanted), blocks, wanted);
}

/// A query that follows another one on the same index delivers what it would
/// deliver on a freshly built index of the same container.
pub proof fn lemma_query_after_query(
    frames: Seq<BlockFrame>,
    blocks: Seq<PrimitiveBlock>,
    first: spec_fn(Way) -> bool,
    second: spec_fn(Way) -> bool,
)
    requires
        blocks.len() == frames.len(),
    ensures
        query_delivers(query_leaves(fresh_index(frames), blocks, first), blocks, second)
            == query_delivers(fresh_index(frames), blocks, second),
{
    let index = fresh_index(frames);
    lemma_query_delivers(index, blocks, first);
    lemma_id_ranges_make_no_difference(index, query_leaves(index, blocks, first), blocks, second);
}

} // verus!

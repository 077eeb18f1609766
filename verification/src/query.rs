//! What a whole query delivers.
//!
//! A query is a first pass over every block that holds a batch of records,
//! then a second pass over the blocks that may hold a wanted point. Here the
//! container is a sequence of decoded blocks, one for each position of the
//! index, and each pass is handed the block at the position it asks for.

use crate::element::Element;
use crate::element::PrimitiveBlock;
use crate::element::Way;
use crate::filtering::lemma_filter_agree;
use crate::filtering::lemma_filter_none;
use crate::first_pass::first_pass_awaits;
use crate::first_pass::lemma_next_record_batch;
use crate::first_pass::next_record_batch;
use crate::first_pass::scan_emits;
use crate::first_pass::scan_index;
use crate::first_pass::scan_state;
use crate::first_pass::FirstPass;
use crate::first_pass::FirstPassView;
use crate::index::BlockIndex;
use crate::index::BlockKind;
use crate::index::DescriptorView;
use crate::records::accepts;
use crate::records::all_answered;
use crate::records::decides;
use crate::records::decision;
use crate::records::id_bounds;
use crate::records::id_in;
use crate::records::id_in_range;
use crate::records::ids_of;
use crate::records::lemma_bounds_exist;
use crate::records::lemma_refs_in_add;
use crate::records::points_in;
use crate::records::refs_in;
use crate::records::ways_in;
use crate::second_pass::is_candidate;
use crate::second_pass::lemma_next_candidate;
use crate::second_pass::next_candidate;
use crate::second_pass::resolve_emits;
use crate::second_pass::second_pass_awaits;
use crate::second_pass::SecondPassView;
use vstd::prelude::*;

verus! {

/// What a first pass leaves behind once it has been over every block.
pub struct FirstPassOutcome<'a> {
    /// The ways that were delivered, in order.
    pub emitted: Seq<Element<'a>>,
    /// The point ids that were collected.
    pub collected: Seq<i64>,
    /// The index, with the id ranges that the pass noted.
    pub index: Seq<DescriptorView>,
}

/// A first pass that is run to its end from the state `pass`: it asks for the
/// next block, scans the block at that position, and so on until no block is
/// left.
pub open spec fn first_pass_run<'a>(
    pass: FirstPassView,
    index: Seq<DescriptorView>,
    blocks: Seq<PrimitiveBlock>,
    wanted: spec_fn(Way) -> bool,
) -> FirstPassOutcome<'a>
    decreases index.len() - pass.cursor,
{
    let at = next_record_batch(index, pass.cursor);
    if at < index.len() {
        proof {
            lemma_next_record_batch(index, pass.cursor);
        }
        let waiting = FirstPassView { cursor: at, collected: pass.collected };
        let block = &blocks[at as int];
        let rest = first_pass_run(
            scan_state(waiting, block, wanted),
            scan_index(index, at as int, block),
            blocks,
            wanted,
        );
        FirstPassOutcome {
            emitted: scan_emits(block, wanted) + rest.emitted,
            collected: rest.collected,
            index: rest.index,
        }
    } else {
        FirstPassOutcome { emitted: Seq::empty(), collected: pass.collected, index }
    }
}

/// A second pass that is run to its end from the state `pass`: it asks for
/// the next block, resolves the block at that position, and so on until no
/// block is left. The result is what it delivers, in order.
pub open spec fn second_pass_run<'a>(
    pass: SecondPassView,
    index: Seq<DescriptorView>,
    blocks: Seq<PrimitiveBlock>,
) -> Seq<Element<'a>>
    decreases index.len() - pass.cursor,
{
    let at = next_candidate(index, pass.wanted, pass.cursor);
    if at < index.len() {
        proof {
            lemma_next_candidate(index, pass.wanted, pass.cursor);
        }
        resolve_emits(&blocks[at as int], pass.wanted, index[at as int].node_ids->0)
            + second_pass_run(
            SecondPassView { cursor: at + 1, wanted: pass.wanted },
            index,
            blocks,
        )
    } else {
        Seq::empty()
    }
}

/// What a query delivers, in order: what the first pass delivers from the
/// first block on, then what the second pass delivers with the ids that the
/// first pass collected and the index that it left.
pub open spec fn query_delivers<'a>(
    index: Seq<DescriptorView>,
    blocks: Seq<PrimitiveBlock>,
    wanted: spec_fn(Way) -> bool,
) -> Seq<Element<'a>> {
    let first = first_pass_run(
        FirstPassView { cursor: 0, collected: Seq::empty() },
        index,
        blocks,
        wanted,
    );
    first.emitted + second_pass_run(
        SecondPassView { cursor: 0, wanted: first.collected.to_set() },
        first.index,
        blocks,
    )
}

/// The index that a query leaves behind.
pub open spec fn query_leaves(
    index: Seq<DescriptorView>,
    blocks: Seq<PrimitiveBlock>,
    wanted: spec_fn(Way) -> bool,
) -> Seq<DescriptorView> {
    first_pass_run(
        FirstPassView { cursor: 0, collected: Seq::empty() },
        index,
        blocks,
        wanted,
    ).index
}

/// The kinds of the blocks that an index describes, in order.
pub open spec fn kinds_of(index: Seq<DescriptorView>) -> Seq<BlockKind> {
    index.map_values(|descriptor: DescriptorView| descriptor.kind)
}

/// The ways of the container from position `from` on: those of each block
/// that holds a batch of records, block by block.
pub open spec fn ways_from<'a>(
    kinds: Seq<BlockKind>,
    blocks: Seq<PrimitiveBlock>,
    from: nat,
) -> Seq<Element<'a>>
    decreases kinds.len() - from,
{
    if from >= kinds.len() {
        Seq::empty()
    } else if kinds[from as int] == BlockKind::RecordBatch {
        ways_in(blocks[from as int].groups@) + ways_from(kinds, blocks, from + 1)
    } else {
        ways_from(kinds, blocks, from + 1)
    }
}

/// The points of the container from position `from` on: those of each block
/// that holds a batch of records, block by block.
pub open spec fn points_from<'a>(
    kinds: Seq<BlockKind>,
    blocks: Seq<PrimitiveBlock>,
    from: nat,
) -> Seq<Element<'a>>
    decreases kinds.len() - from,
{
    if from >= kinds.len() {
        Seq::empty()
    } else if kinds[from as int] == BlockKind::RecordBatch {
        points_in(blocks[from as int].groups@) + points_from(kinds, blocks, from + 1)
    } else {
        points_from(kinds, blocks, from + 1)
    }
}

/// The ways of the container that `wanted` holds of, in container order.
pub open spec fn accepted_ways<'a>(
    kinds: Seq<BlockKind>,
    blocks: Seq<PrimitiveBlock>,
    wanted: spec_fn(Way) -> bool,
) -> Seq<Element<'a>> {
    ways_from(kinds, blocks, 0).filter(accepts(wanted))
}

/// The ids of the points that an accepted way refers to.
pub open spec fn referenced(
    kinds: Seq<BlockKind>,
    blocks: Seq<PrimitiveBlock>,
    wanted: spec_fn(Way) -> bool,
) -> Set<i64> {
    refs_in(accepted_ways(kinds, blocks, wanted)).to_set()
}

/// The points of the container that an accepted way refers to, in container
/// order.
pub open spec fn dependent_points<'a>(
    kinds: Seq<BlockKind>,
    blocks: Seq<PrimitiveBlock>,
    wanted: spec_fn(Way) -> bool,
) -> Seq<Element<'a>> {
    points_from(kinds, blocks, 0).filter(id_in(referenced(kinds, blocks, wanted)))
}

/// Blocks that hold no batch of records add no way and no point.
pub proof fn lemma_skip_other_blocks(
    kinds: Seq<BlockKind>,
    blocks: Seq<PrimitiveBlock>,
    from: nat,
    to: nat,
)
    requires
        from <= to <= kinds.len(),
        forall|p: int| from <= p < to ==> kinds[p] != BlockKind::RecordBatch,
    ensures
        ways_from(kinds, blocks, from) == ways_from(kinds, blocks, to),
        points_from(kinds, blocks, from) == points_from(kinds, blocks, to),
    decreases to - from,
{
    if from < to {
        lemma_skip_other_blocks(kinds, blocks, from + 1, to);
    }
}

/// Blocks of which no point passes a test add nothing to the points that
/// pass it.
pub proof fn lemma_skip_blocks_without_hit(
    kinds: Seq<BlockKind>,
    blocks: Seq<PrimitiveBlock>,
    test: spec_fn(Element) -> bool,
    from: nat,
    to: nat,
)
    requires
        from <= to <= kinds.len(),
        forall|p: int|
            from <= p < to && kinds[p] == BlockKind::RecordBatch ==> points_in(
                (#[trigger] blocks[p]).groups@,
            ).filter(test) == Seq::<Element>::empty(),
    ensures
        points_from(kinds, blocks, from).filter(test) == points_from(kinds, blocks, to).filter(
            test,
        ),
    decreases to - from,
{
    if from < to {
        lemma_skip_blocks_without_hit(kinds, blocks, test, from + 1, to);
        if kinds[from as int] == BlockKind::RecordBatch {
            let here = points_in(blocks[from as int].groups@);
            let rest = points_from(kinds, blocks, from + 1);
            Seq::filter_distributes_over_add(here, rest, test);
            assert(here.filter(test) + rest.filter(test) =~= rest.filter(test));
        }
    }
}

/// The index carries, for every block that holds a batch of records with a
/// point in it, the least and the greatest point id of that block.
pub open spec fn ranges_noted(index: Seq<DescriptorView>, blocks: Seq<PrimitiveBlock>) -> bool {
    forall|p: int|
        0 <= p < index.len() && (#[trigger] index[p]).kind == BlockKind::RecordBatch && points_in(
            blocks[p].groups@,
        ).len() > 0 ==> index[p].node_ids == id_bounds(ids_of(points_in(blocks[p].groups@)))
}

/// A first pass that is run to its end delivers the accepted ways of the
/// blocks it has not been over yet, collects what they refer to, and notes
/// the id range of each of those blocks that holds a point. It changes
/// nothing else in the index.
pub proof fn lemma_first_pass_run(
    pass: FirstPassView,
    index: Seq<DescriptorView>,
    blocks: Seq<PrimitiveBlock>,
    wanted: spec_fn(Way) -> bool,
)
    requires
        blocks.len() == index.len(),
    ensures
        ({
            let out = first_pass_run(pass, index, blocks, wanted);
            &&& out.emitted == ways_from(kinds_of(index), blocks, pass.cursor).filter(
                accepts(wanted),
            )
            &&& out.collected == pass.collected + refs_in(out.emitted)
            &&& out.index.len() == index.len()
            &&& kinds_of(out.index) == kinds_of(index)
            &&& forall|p: int|
                0 <= p < index.len() ==> {
                    &&& (#[trigger] out.index[p]).offset == index[p].offset
                    &&& out.index[p].node_ids == if p >= pass.cursor && index[p].kind
                        == BlockKind::RecordBatch && points_in(blocks[p].groups@).len() > 0 {
                        id_bounds(ids_of(points_in(blocks[p].groups@)))
                    } else {
                        index[p].node_ids
                    }
                }
        }),
    decreases index.len() - pass.cursor,
{
    let kinds = kinds_of(index);
    let out = first_pass_run(pass, index, blocks, wanted);
    let at = next_record_batch(index, pass.cursor);
    lemma_next_record_batch(index, pass.cursor);
    if pass.cursor >= index.len() {
        assert(out.emitted =~= ways_from(kinds, blocks, pass.cursor).filter(accepts(wanted))) by {
            reveal(Seq::filter);
        }
        assert(out.collected =~= pass.collected + refs_in(out.emitted));
    } else if at < index.len() {
        let waiting = FirstPassView { cursor: at, collected: pass.collected };
        let block = &blocks[at as int];
        let after = scan_state(waiting, block, wanted);
        let noted = scan_index(index, at as int, block);
        let rest = first_pass_run(after, noted, blocks, wanted);
        lemma_first_pass_run(after, noted, blocks, wanted);
        assert(kinds_of(noted) =~= kinds);
        assert forall|p: int| pass.cursor <= p < at implies kinds[p] != BlockKind::RecordBatch by {
            assert(index[p].kind != BlockKind::RecordBatch);
        }
        lemma_skip_other_blocks(kinds, blocks, pass.cursor, at);
        let here = ways_in(block.groups@);
        let later = ways_from(kinds, blocks, at + 1);
        Seq::filter_distributes_over_add(here, later, accepts(wanted));
        assert(ways_from(kinds, blocks, at) == here + later);
        lemma_refs_in_add(scan_emits(block, wanted), rest.emitted);
        assert(out.collected =~= pass.collected + refs_in(out.emitted));
        if points_in(block.groups@).len() > 0 {
            lemma_bounds_exist(ids_of(points_in(block.groups@)));
        }
        assert forall|p: int| 0 <= p < index.len() implies {
            &&& (#[trigger] out.index[p]).offset == index[p].offset
            &&& out.index[p].node_ids == if p >= pass.cursor && index[p].kind
                == BlockKind::RecordBatch && points_in(blocks[p].groups@).len() > 0 {
                id_bounds(ids_of(points_in(blocks[p].groups@)))
            } else {
                index[p].node_ids
            }
        } by {
            assert(rest.index[p].offset == noted[p].offset);
            if pass.cursor <= p < at {
                assert(index[p].kind != BlockKind::RecordBatch);
            }
        }
    } else {
        assert forall|p: int| pass.cursor <= p < index.len() implies kinds[p]
            != BlockKind::RecordBatch by {
            assert(index[p].kind != BlockKind::RecordBatch);
        }
        lemma_skip_other_blocks(kinds, blocks, pass.cursor, index.len());
        assert(out.emitted =~= ways_from(kinds, blocks, pass.cursor).filter(accepts(wanted))) by {
            reveal(Seq::filter);
        }
        assert(out.collected =~= pass.collected + refs_in(out.emitted));
    }
}

/// Where the index carries the id range of a block, the points of the block
/// that pass the search in that range are the points whose id is wanted.
proof fn lemma_resolve_finds_wanted(
    descriptor: DescriptorView,
    block: PrimitiveBlock,
    wanted: Set<i64>,
)
    requires
        descriptor.node_ids is Some,
        points_in(block.groups@).len() > 0 ==> descriptor.node_ids == id_bounds(
            ids_of(points_in(block.groups@)),
        ),
    ensures
        resolve_emits(&block, wanted, descriptor.node_ids->0) == points_in(block.groups@).filter(
            id_in(wanted),
        ),
{
    let points = points_in(block.groups@);
    let (lowest, highest) = descriptor.node_ids->0;
    if points.len() > 0 {
        let ids = ids_of(points);
        lemma_bounds_exist(ids);
        assert forall|i: int| 0 <= i < points.len() implies id_in_range(wanted, lowest, highest)(
            #[trigger] points[i],
        ) == id_in(wanted)(points[i]) by {
            assert(ids[i] == points[i].spec_id());
            assert(lowest <= ids[i] <= highest);
        }
    }
    lemma_filter_agree(points, id_in_range(wanted, lowest, highest), id_in(wanted));
}

/// A block that the second pass passes over holds no wanted point.
proof fn lemma_passed_over_holds_none(
    descriptor: DescriptorView,
    block: PrimitiveBlock,
    wanted: Set<i64>,
)
    requires
        descriptor.kind == BlockKind::RecordBatch,
        !is_candidate(descriptor, wanted),
        points_in(block.groups@).len() > 0 ==> descriptor.node_ids == id_bounds(
            ids_of(points_in(block.groups@)),
        ),
    ensures
        points_in(block.groups@).filter(id_in(wanted)) == Seq::<Element>::empty(),
{
    let points = points_in(block.groups@);
    if points.len() > 0 {
        let ids = ids_of(points);
        lemma_bounds_exist(ids);
        let (lowest, highest) = descriptor.node_ids->0;
        assert forall|i: int| 0 <= i < points.len() implies !id_in(wanted)(
            #[trigger] points[i],
        ) by {
            assert(ids[i] == points[i].spec_id());
            assert(lowest <= ids[i] <= highest);
            if wanted.contains(ids[i]) {
                assert(is_candidate(descriptor, wanted));
            }
        }
    }
    lemma_filter_none(points, id_in(wanted));
}

/// With the id ranges noted, a second pass that is run to its end delivers
/// the wanted points of the blocks it has not been over yet: the blocks it
/// passes over hold none.
pub proof fn lemma_second_pass_run(
    pass: SecondPassView,
    index: Seq<DescriptorView>,
    blocks: Seq<PrimitiveBlock>,
)
    requires
        blocks.len() == index.len(),
        ranges_noted(index, blocks),
    ensures
        second_pass_run(pass, index, blocks) == points_from(
            kinds_of(index),
            blocks,
            pass.cursor,
        ).filter(id_in(pass.wanted)),
    decreases index.len() - pass.cursor,
{
    let kinds = kinds_of(index);
    let test = id_in(pass.wanted);
    let at = next_candidate(index, pass.wanted, pass.cursor);
    lemma_next_candidate(index, pass.wanted, pass.cursor);
    if pass.cursor >= index.len() {
        assert(points_from(kinds, blocks, pass.cursor).filter(test) =~= Seq::<
            Element,
        >::empty()) by {
            reveal(Seq::filter);
        }
    } else {
        assert forall|p: int|
            pass.cursor <= p < at && kinds[p] == BlockKind::RecordBatch implies points_in(
            (#[trigger] blocks[p]).groups@,
        ).filter(test) == Seq::<Element>::empty() by {
            assert(!is_candidate(index[p], pass.wanted));
            lemma_passed_over_holds_none(index[p], blocks[p], pass.wanted);
        }
        lemma_skip_blocks_without_hit(kinds, blocks, test, pass.cursor, at);
        if at < index.len() {
            let after = SecondPassView { cursor: at + 1, wanted: pass.wanted };
            lemma_second_pass_run(after, index, blocks);
            lemma_resolve_finds_wanted(index[at as int], blocks[at as int], pass.wanted);
            let here = points_in(blocks[at as int].groups@);
            let later = points_from(kinds, blocks, at + 1);
            Seq::filter_distributes_over_add(here, later, test);
            assert(points_from(kinds, blocks, at) == here + later);
        } else {
            assert(points_from(kinds, blocks, at).filter(test) =~= Seq::<Element>::empty()) by {
                reveal(Seq::filter);
            }
        }
    }
}

/// A query delivers the accepted ways of the container, in container order,
/// and then the points of the container that an accepted way refers to, in
/// container order. The id ranges that the index held before the query have
/// no part in this. The index keeps its length, its offsets and its kinds, and
/// carries the id range of every block that holds a point.
pub proof fn lemma_query_delivers(
    index: Seq<DescriptorView>,
    blocks: Seq<PrimitiveBlock>,
    wanted: spec_fn(Way) -> bool,
)
    requires
        blocks.len() == index.len(),
    ensures
        query_delivers(index, blocks, wanted) == accepted_ways(kinds_of(index), blocks, wanted)
            + dependent_points(kinds_of(index), blocks, wanted),
        query_leaves(index, blocks, wanted).len() == index.len(),
        kinds_of(query_leaves(index, blocks, wanted)) == kinds_of(index),
        forall|p: int|
            0 <= p < index.len() ==> (#[trigger] query_leaves(index, blocks, wanted)[p]).offset
                == index[p].offset,
        ranges_noted(query_leaves(index, blocks, wanted), blocks),
{
    let start = FirstPassView { cursor: 0, collected: Seq::empty() };
    let first = first_pass_run(start, index, blocks, wanted);
    lemma_first_pass_run(start, index, blocks, wanted);
    assert(first.collected =~= refs_in(first.emitted));
    assert(ranges_noted(first.index, blocks)) by {
        assert forall|p: int|
            0 <= p < first.index.len() && (#[trigger] first.index[p]).kind == BlockKind::RecordBatch
                && points_in(blocks[p].groups@).len() > 0 implies first.index[p].node_ids
            == id_bounds(ids_of(points_in(blocks[p].groups@))) by {
            assert(kinds_of(first.index)[p] == kinds_of(index)[p]);
        }
    }
    lemma_second_pass_run(
        SecondPassView { cursor: 0, wanted: first.collected.to_set() },
        first.index,
        blocks,
    );
}

/// A first pass that waits for a block goes on as one that has yet to ask for
/// it.
proof fn lemma_first_pass_resumes(
    pass: FirstPassView,
    index: Seq<DescriptorView>,
    blocks: Seq<PrimitiveBlock>,
    wanted: spec_fn(Way) -> bool,
)
    ensures
        first_pass_run(
            FirstPassView {
                cursor: next_record_batch(index, pass.cursor),
                collected: pass.collected,
            },
            index,
            blocks,
            wanted,
        ) == first_pass_run(pass, index, blocks, wanted),
{
    lemma_next_record_batch(index, pass.cursor);
}

/// A second pass that waits for a block goes on as one that has yet to ask
/// for it.
proof fn lemma_second_pass_resumes(
    pass: SecondPassView,
    index: Seq<DescriptorView>,
    blocks: Seq<PrimitiveBlock>,
)
    ensures
        second_pass_run(
            SecondPassView {
                cursor: next_candidate(index, pass.wanted, pass.cursor),
                wanted: pass.wanted,
            },
            index,
            blocks,
        ) == second_pass_run(pass, index, blocks),
{
    lemma_next_candidate(index, pass.wanted, pass.cursor);
}

/// Runs a whole query over a container whose blocks are decoded already:
/// `blocks` holds, for each position of the index, the block at that
/// position. The answer is what the query delivers, in order; the index keeps
/// the id ranges that the first pass noted.
///
/// There is no answer, and nothing changes, where `blocks` and the index
/// differ in length. For a container that is not in memory, drive the two
/// passes directly, so that a block is decoded only when a pass asks for it.
pub fn run_query<'a, F: Fn(&Way) -> bool>(
    index: &mut BlockIndex,
    blocks: &'a [PrimitiveBlock],
    filter: &F,
) -> (delivered: Option<Vec<Element<'a>>>)
    requires
        decides(*filter),
    ensures
        blocks@.len() != old(index)@.len() ==> delivered is None && final(index)@ == old(index)@,
        blocks@.len() == old(index)@.len() ==> {
            &&& forall|p: int|
                0 <= p < blocks@.len() && old(index)@[p].kind == BlockKind::RecordBatch
                    ==> all_answered(*filter, ways_in((#[trigger] blocks@[p]).groups@))
            &&& delivered matches Some(elements) && elements@ == query_delivers(
                old(index)@,
                blocks@,
                decision(*filter),
            ) && elements@ == accepted_ways(kinds_of(old(index)@), blocks@, decision(*filter))
                + dependent_points(kinds_of(old(index)@), blocks@, decision(*filter))
            &&& final(index)@ == query_leaves(old(index)@, blocks@, decision(*filter))
        },
{
    if blocks.len() != index.len() {
        return None;
    }
    proof {
        lemma_query_delivers(index@, blocks@, decision(*filter));
    }
    let ghost wanted = decision(*filter);
    let ghost start = FirstPassView { cursor: 0, collected: Seq::empty() };
    let ghost whole = first_pass_run(start, index@, blocks@, wanted);
    let mut emitted: Vec<Element<'a>> = Vec::new();
    let mut first = FirstPass::new();
    proof {
        lemma_first_pass_resumes(first@, index@, blocks@, wanted);
        lemma_next_record_batch(index@, first@.cursor);
        assert(emitted@ + whole.emitted =~= whole.emitted);
    }
    let ghost kinds = kinds_of(index@);
    let mut next = first.next_block(index);
    while next.is_some()
        invariant
            decides(*filter),
            wanted == decision(*filter),
            blocks@.len() == index@.len(),
            kinds == kinds_of(index@),
            forall|p: int|
                0 <= p < first@.cursor && p < blocks@.len() && kinds[p] == BlockKind::RecordBatch
                    ==> all_answered(*filter, ways_in((#[trigger] blocks@[p]).groups@)),
            next is Some <==> first@.cursor < index@.len(),
            next is Some ==> first_pass_awaits(first@, index@),
            whole.emitted == emitted@ + first_pass_run(first@, index@, blocks@, wanted).emitted,
            whole.collected == first_pass_run(first@, index@, blocks@, wanted).collected,
            whole.index == first_pass_run(first@, index@, blocks@, wanted).index,
        decreases index@.len() - first@.cursor,
    {
        let ghost at = first@.cursor;
        let block = &blocks[first.position()];
        let mut ways = first.scan(index, block, filter);
        emitted.append(&mut ways);
        proof {
            lemma_first_pass_resumes(first@, index@, blocks@, wanted);
            lemma_next_record_batch(index@, first@.cursor);
            assert(kinds_of(index@) =~= kinds);
        }
        next = first.next_block(index);
        proof {
            let rest = first_pass_run(first@, index@, blocks@, wanted);
            assert(whole.emitted =~= emitted@ + rest.emitted);
            assert forall|p: int|
                0 <= p < first@.cursor && p < blocks@.len() && kinds[p]
                    == BlockKind::RecordBatch implies all_answered(
                *filter,
                ways_in((#[trigger] blocks@[p]).groups@),
            ) by {
                if p > at {
                    assert(index@[p].kind != BlockKind::RecordBatch);
                }
            }
        }
    }
    let ghost noted = index@;
    let ghost ways = emitted@;
    assert(ways =~= whole.emitted);
    let mut second = first.finish();
    let ghost points = second_pass_run(second@, noted, blocks@);
    proof {
        lemma_second_pass_resumes(second@, index@, blocks@);
        lemma_next_candidate(index@, second@.wanted, second@.cursor);
        assert(emitted@.skip(ways.len() as int) + points =~= points);
        assert(emitted@.take(ways.len() as int) =~= ways);
    }
    let mut next = second.next_block(index);
    while next.is_some()
        invariant
            blocks@.len() == index@.len(),
            index@ == noted,
            next is Some <==> second@.cursor < index@.len(),
            next is Some ==> second_pass_awaits(second@, index@),
            ways.len() <= emitted@.len(),
            emitted@.take(ways.len() as int) == ways,
            points == emitted@.skip(ways.len() as int) + second_pass_run(second@, noted, blocks@),
        decreases index@.len() - second@.cursor,
    {
        let block = &blocks[second.position()];
        let mut found = second.resolve(index, block);
        let ghost before = emitted@;
        let ghost resolved = found@;
        emitted.append(&mut found);
        proof {
            lemma_second_pass_resumes(second@, index@, blocks@);
            lemma_next_candidate(index@, second@.wanted, second@.cursor);
        }
        next = second.next_block(index);
        proof {
            assert(emitted@.take(ways.len() as int) =~= before.take(ways.len() as int));
            assert(emitted@.skip(ways.len() as int) =~= before.skip(ways.len() as int) + resolved);
            assert(points =~= emitted@.skip(ways.len() as int) + second_pass_run(
                second@,
                noted,
                blocks@,
            ));
        }
    }
    proof {
        assert(emitted@ =~= emitted@.take(ways.len() as int) + emitted@.skip(ways.len() as int));
        assert(emitted@.skip(ways.len() as int) =~= points);
    }
    Some(emitted)
}

} // verus!

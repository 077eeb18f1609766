//! The first pass of a query: it filters the ways, collects the ids of the
//! points that the accepted ways refer to, and notes for each block the range
//! of the point ids found there.
//!
//! The pass names the block it needs next; the caller loads and decodes that
//! block and hands it over; the pass answers with the ways to deliver.
//!
//! A pass that is given up halfway, because a block could not be loaded,
//! leaves the index as it is by then: the blocks it has been over carry the
//! ranges it noted, the others what they carried before.

use crate::element::Element;
use crate::element::PrimitiveBlock;
use crate::element::Way;
use crate::idset::sort_and_dedup;
use crate::index::BlockIndex;
use crate::index::BlockKind;
use crate::index::DescriptorView;
use crate::records::accepts;
use crate::records::all_answered;
use crate::records::bounds;
use crate::records::decides;
use crate::records::decision;
use crate::records::group_points;
use crate::records::group_ways;
use crate::records::id_bounds;
use crate::records::ids_of;
use crate::records::lemma_bounds_unique;
use crate::records::lemma_group_added;
use crate::records::points_in;
use crate::records::refs_in;
use crate::records::ways_in;
use crate::second_pass::SecondPass;
use crate::second_pass::SecondPassView;
use vstd::prelude::*;

verus! {

/// The first position at or after `from` that holds a batch of records; a
/// position past the end if there is none.
pub open spec fn next_record_batch(index: Seq<DescriptorView>, from: nat) -> nat
    decreases index.len() - from,
{
    if from >= index.len() {
        from
    } else if index[from as int].kind == BlockKind::RecordBatch {
        from
    } else {
        next_record_batch(index, from + 1)
    }
}

/// The search for the next batch of records never goes back, and stops at a
/// batch of records or past the end.
pub proof fn lemma_next_record_batch(index: Seq<DescriptorView>, from: nat)
    ensures
        from <= next_record_batch(index, from),
        from <= index.len() ==> next_record_batch(index, from) <= index.len(),
        next_record_batch(index, from) < index.len() ==> index[next_record_batch(
            index,
            from,
        ) as int].kind == BlockKind::RecordBatch,
        forall|p: int|
            from <= p < next_record_batch(index, from) && p < index.len() ==> (
            #[trigger] index[p]).kind != BlockKind::RecordBatch,
    decreases index.len() - from,
{
    if from < index.len() && index[from as int].kind != BlockKind::RecordBatch {
        lemma_next_record_batch(index, from + 1);
    }
}

/// The first pass as contracts speak of it.
pub struct FirstPassView {
    /// The position of the block that the pass looks at next.
    pub cursor: nat,
    /// The point ids that the accepted ways referred to so far, in the order
    /// in which they were met, repeats included.
    pub collected: Seq<i64>,
}

/// The first pass over a container: it filters the ways, collects the ids of
/// the points that the accepted ways refer to, and notes for each block the
/// range of the point ids found there.
pub struct FirstPass {
    cursor: usize,
    node_ids: Vec<i64>,
}

impl View for FirstPass {
    type V = FirstPassView;

    closed spec fn view(&self) -> FirstPassView {
        FirstPassView { cursor: self.cursor as nat, collected: self.node_ids@ }
    }
}

/// The first pass waits for the block at its cursor: there is such a block,
/// and it holds a batch of records.
pub open spec fn first_pass_awaits(pass: FirstPassView, index: Seq<DescriptorView>) -> bool {
    pass.cursor < index.len() && index[pass.cursor as int].kind == BlockKind::RecordBatch
}

/// The ways that the first pass delivers for a block.
pub open spec fn scan_emits<'a>(block: &'a PrimitiveBlock, wanted: spec_fn(Way) -> bool) -> Seq<
    Element<'a>,
> {
    ways_in(block.groups@).filter(accepts(wanted))
}

/// The first pass after it has scanned the block it waited for.
pub open spec fn scan_state(
    pass: FirstPassView,
    block: &PrimitiveBlock,
    wanted: spec_fn(Way) -> bool,
) -> FirstPassView {
    FirstPassView {
        cursor: pass.cursor + 1,
        collected: pass.collected + refs_in(scan_emits(block, wanted)),
    }
}

/// The index after the first pass has scanned the block at `position`: where
/// the block holds a point, the descriptor now carries the least and the
/// greatest point id of the block; where it holds none, nothing changes.
pub open spec fn scan_index(
    index: Seq<DescriptorView>,
    position: int,
    block: &PrimitiveBlock,
) -> Seq<DescriptorView> {
    match id_bounds(ids_of(points_in(block.groups@))) {
        Some(found) => index.update(
            position,
            DescriptorView { node_ids: Some(found), ..index[position] },
        ),
        None => index,
    }
}

/// What the scan of a block knows of the point ids it has met: nothing while
/// it has met none, else the least and the greatest of them.
pub open spec fn spans(found: Option<(i64, i64)>, seen: Seq<i64>) -> bool {
    match found {
        None => seen.len() == 0,
        Some((lowest, highest)) => bounds(seen, lowest, highest),
    }
}

/// The least and the greatest id once `id` has been met as well.
pub open spec fn widened(found: Option<(i64, i64)>, id: i64) -> (i64, i64) {
    match found {
        None => (id, id),
        Some((lowest, highest)) => (
            if id < lowest {
                id
            } else {
                lowest
            },
            if id > highest {
                id
            } else {
                highest
            },
        ),
    }
}

/// Takes `id` into the least and the greatest id met so far.
fn widen(found: Option<(i64, i64)>, id: i64) -> (wider: Option<(i64, i64)>)
    ensures
        wider == Some(widened(found, id)),
{
    match found {
        None => Some((id, id)),
        Some((lowest, highest)) => Some(
            (
                if id < lowest {
                    id
                } else {
                    lowest
                },
                if id > highest {
                    id
                } else {
                    highest
                },
            ),
        ),
    }
}

proof fn lemma_widen_spans(found: Option<(i64, i64)>, seen: Seq<i64>, id: i64)
    requires
        spans(found, seen),
    ensures
        spans(Some(widened(found, id)), seen.push(id)),
{
    let grown = seen.push(id);
    assert(grown[seen.len() as int] == id);
    match found {
        None => {},
        Some((lowest, highest)) => {
            let i = choose|i: int| 0 <= i < seen.len() && seen[i] == lowest;
            let j = choose|j: int| 0 <= j < seen.len() && seen[j] == highest;
            assert(grown[i] == lowest && grown[j] == highest);
            let (least, greatest) = widened(found, id);
            assert forall|k: int| 0 <= k < grown.len() implies least <= #[trigger] grown[k]
                <= greatest by {
                if k < seen.len() {
                    assert(lowest <= seen[k] <= highest);
                }
            }
        },
    }
}

/// Appends `refs` to the collected ids.
fn append_ids(node_ids: &mut Vec<i64>, refs: &Vec<i64>)
    ensures
        final(node_ids)@ == old(node_ids)@ + refs@,
{
    node_ids.reserve(refs.len());
    let mut i: usize = 0;
    while i < refs.len()
        invariant
            i <= refs@.len(),
            node_ids@ == old(node_ids)@ + refs@.take(i as int),
        decreases refs@.len() - i,
    {
        node_ids.push(refs[i]);
        assert(node_ids@ =~= old(node_ids)@ + refs@.take(i + 1));
        i += 1;
    }
    assert(refs@.take(i as int) =~= refs@);
}

impl FirstPass {
    /// A first pass that has seen no block yet.
    pub fn new() -> (pass: FirstPass)
        ensures
            pass@ == (FirstPassView { cursor: 0, collected: Seq::empty() }),
    {
        FirstPass { cursor: 0, node_ids: Vec::new() }
    }

    /// The position in the index of the block that the pass looks at next.
    pub fn position(&self) -> (position: usize)
        ensures
            position == self@.cursor,
    {
        self.cursor
    }

    /// Moves on to the next block that holds a batch of records, and tells
    /// where that block starts; `None` when the pass has been over every block.
    /// The block is to be loaded and handed to `scan`.
    pub fn next_block(&mut self, index: &BlockIndex) -> (offset: Option<u64>)
        ensures
            final(self)@.collected == old(self)@.collected,
            final(self)@.cursor == next_record_batch(index@, old(self)@.cursor),
            offset == if final(self)@.cursor < index@.len() {
                Some(index@[final(self)@.cursor as int].offset)
            } else {
                None
            },
    {
        loop
            invariant
                self.node_ids@ == old(self).node_ids@,
                old(self).cursor <= self.cursor,
                next_record_batch(index@, self.cursor as nat) == next_record_batch(
                    index@,
                    old(self).cursor as nat,
                ),
            decreases index@.len() - self.cursor,
        {
            match index.get(self.cursor) {
                None => {
                    return None;
                },
                Some(descriptor) => {
                    if descriptor.kind == BlockKind::RecordBatch {
                        return Some(descriptor.offset);
                    }
                    self.cursor += 1;
                },
            }
        }
    }

    /// Takes the block that the pass waits for and answers with the ways of that
    /// block that `filter` accepts, in the order of the block: they are to be
    /// delivered now. The ids of the points they refer to are collected, the
    /// range of the point ids of the block is noted in the index, and the pass
    /// moves past the block.
    ///
    /// While the pass waits for no block, nothing happens.
    pub fn scan<'a, F: Fn(&Way) -> bool>(
        &mut self,
        index: &mut BlockIndex,
        block: &'a PrimitiveBlock,
        filter: &F,
    ) -> (ways: Vec<Element<'a>>)
        requires
            decides(*filter),
        ensures
            first_pass_awaits(old(self)@, old(index)@) ==> {
                &&& all_answered(*filter, ways_in(block.groups@))
                &&& ways@ == scan_emits(block, decision(*filter))
                &&& final(self)@ == scan_state(old(self)@, block, decision(*filter))
                &&& final(index)@ == scan_index(old(index)@, old(self)@.cursor as int, block)
            },
            !first_pass_awaits(old(self)@, old(index)@) ==> {
                &&& ways@.len() == 0
                &&& final(self)@ == old(self)@
                &&& final(index)@ == old(index)@
            },
    {
        let mut emitted: Vec<Element<'a>> = Vec::new();
        let awaited = match index.get(self.cursor) {
            Some(descriptor) => descriptor.kind == BlockKind::RecordBatch,
            None => false,
        };
        if !awaited {
            return emitted;
        }
        let ghost wanted = decision(*filter);
        let ghost all = block.groups@;
        let mut found: Option<(i64, i64)> = None;
        let mut g: usize = 0;
        assert(ways_in(all.take(0)).filter(accepts(wanted)) =~= Seq::empty()) by {
            reveal(Seq::filter);
        }
        assert(ids_of(points_in(all.take(0))) =~= Seq::empty());
        while g < block.groups.len()
            invariant
                decides(*filter),
                wanted == decision(*filter),
                all == block.groups@,
                g <= all.len(),
                self.cursor == old(self).cursor,
                emitted@ == ways_in(all.take(g as int)).filter(accepts(wanted)),
                all_answered(*filter, ways_in(all.take(g as int))),
                self.node_ids@ == old(self).node_ids@ + refs_in(emitted@),
                spans(found, ids_of(points_in(all.take(g as int)))),
            decreases all.len() - g,
        {
            let group = &block.groups[g];
            let ghost before = ways_in(all.take(g as int));
            let ghost group_all = group_ways(group);
            let mut w: usize = 0;
            assert(before + group_all.take(0) =~= before);
            while w < group.ways.len()
                invariant
                    decides(*filter),
                    wanted == decision(*filter),
                    group_all == group_ways(group),
                    w <= group.ways@.len(),
                    self.cursor == old(self).cursor,
                    emitted@ == (before + group_all.take(w as int)).filter(accepts(wanted)),
                    all_answered(*filter, before + group_all.take(w as int)),
                    self.node_ids@ == old(self).node_ids@ + refs_in(emitted@),
                decreases group.ways@.len() - w,
            {
                let way = &group.ways[w];
                let keep = filter(way);
                proof {
                    let element = Element::Way(way);
                    assert(group_all[w as int] == element);
                    assert(before + group_all.take(w + 1) =~= (before + group_all.take(
                        w as int,
                    )).push(element));
                    (before + group_all.take(w as int)).lemma_filter_push(element, accepts(wanted));
                    assert(accepts(wanted)(element) == keep);
                }
                if keep {
                    let ghost delivered = emitted@;
                    append_ids(&mut self.node_ids, &way.refs);
                    emitted.push(Element::Way(way));
                    proof {
                        assert(emitted@.drop_last() =~= delivered);
                        assert(self.node_ids@ =~= old(self).node_ids@ + refs_in(emitted@));
                    }
                }
                w += 1;
            }
            let ghost met = ids_of(points_in(all.take(g as int)));
            let ghost group_all_points = group_points(group);
            let mut n: usize = 0;
            assert(met + ids_of(group_all_points.take(0)) =~= met);
            while n < group.nodes.len()
                invariant
                    group_all_points == group_points(group),
                    n <= group.nodes@.len(),
                    spans(found, met + ids_of(group_all_points.take(n as int))),
                decreases group.nodes@.len() - n,
            {
                let id: i64 = group.nodes[n].id;
                let wider = widen(found, id);
                proof {
                    lemma_widen_spans(found, met + ids_of(group_all_points.take(n as int)), id);
                    assert(group_all_points[n as int] == Element::Node(&group.nodes@[n as int]));
                    assert((met + ids_of(group_all_points.take(n as int))).push(id) =~= met
                        + ids_of(group_all_points.take(n + 1)));
                }
                found = wider;
                n += 1;
            }
            let mut d: usize = 0;
            while d < group.dense_nodes.len()
                invariant
                    group_all_points == group_points(group),
                    n == group.nodes@.len(),
                    d <= group.dense_nodes@.len(),
                    spans(found, met + ids_of(group_all_points.take(n + d))),
                decreases group.dense_nodes@.len() - d,
            {
                let id: i64 = group.dense_nodes[d].id;
                let wider = widen(found, id);
                proof {
                    lemma_widen_spans(found, met + ids_of(group_all_points.take(n + d)), id);
                    assert(group_all_points[n + d] == Element::DenseNode(
                        &group.dense_nodes@[d as int],
                    ));
                    assert((met + ids_of(group_all_points.take(n + d))).push(id) =~= met + ids_of(
                        group_all_points.take(n + d + 1),
                    ));
                }
                found = wider;
                d += 1;
            }
            proof {
                lemma_group_added(all, g as int);
                assert(group_all.take(w as int) =~= group_all);
                assert(group_all_points.take(n + d) =~= group_all_points);
                assert(met + ids_of(group_all_points) =~= ids_of(points_in(all.take(g + 1))));
            }
            g += 1;
        }
        proof {
            assert(all.take(g as int) =~= all);
            match found {
                None => {},
                Some((lowest, highest)) => {
                    lemma_bounds_unique(ids_of(points_in(all)), lowest, highest);
                },
            }
        }
        if let Some((lowest, highest)) = found {
            proof {
                let ids = ids_of(points_in(all));
                let i = choose|i: int| 0 <= i < ids.len() && ids[i] == lowest;
                assert(lowest <= ids[i] <= highest);
            }
            index.set_node_range(self.cursor, lowest, highest);
        }
        self.cursor += 1;
        emitted
    }

    /// Ends the first pass: the collected ids are sorted and each is kept once.
    /// The second pass starts at the first block, with those ids as the wanted
    /// ones.
    pub fn finish(self) -> (second: SecondPass)
        ensures
            second@ == (SecondPassView { cursor: 0, wanted: self@.collected.to_set() }),
    {
        let mut node_ids = self.node_ids;
        sort_and_dedup(&mut node_ids);
        SecondPass::over(node_ids)
    }
}

} // verus!

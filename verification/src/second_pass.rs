//! The second pass of a query: it hands out the points that the accepted
//! ways refer to, and leaves out every block whose range of point ids holds
//! none of them.
//!
//! The pass names the block it needs next; the caller loads and decodes that
//! block and hands it over; the pass answers with the points to deliver.

use crate::element::Element;
use crate::element::PrimitiveBlock;
use crate::index::BlockIndex;
use crate::index::BlockKind;
use crate::index::DescriptorView;
use crate::interval::ascending;
use crate::interval::binary_search;
use crate::interval::range_included;
use crate::interval::strictly_increasing;
use crate::interval::touches;
use crate::records::group_points;
use crate::records::id_in_range;
use crate::records::lemma_group_added;
use crate::records::points_in;
use std::ops::RangeInclusive;
use vstd::prelude::*;
use vstd::slice::slice_subrange;

verus! {

/// The second pass as contracts speak of it.
pub struct SecondPassView {
    /// The position of the block that the pass looks at next.
    pub cursor: nat,
    /// The ids of the points to deliver: those that an accepted way referred
    /// to.
    pub wanted: Set<i64>,
}

/// The second pass over a container: it hands out the points that the
/// accepted ways refer to, and leaves out every block whose range of point ids
/// holds none of them.
pub struct SecondPass {
    cursor: usize,
    node_ids: Vec<i64>,
}

impl View for SecondPass {
    type V = SecondPassView;

    closed spec fn view(&self) -> SecondPassView {
        SecondPassView { cursor: self.cursor as nat, wanted: self.node_ids@.to_set() }
    }
}

/// The block of this descriptor may hold a wanted point: it holds a batch of
/// records, the range of its point ids is known, and a wanted id lies in that
/// range.
pub open spec fn is_candidate(descriptor: DescriptorView, wanted: Set<i64>) -> bool {
    &&& descriptor.kind == BlockKind::RecordBatch
    &&& match descriptor.node_ids {
        Some((lowest, highest)) => exists|id: i64|
            #[trigger] wanted.contains(id) && lowest <= id <= highest,
        None => false,
    }
}

/// The first position at or after `from` whose block may hold a wanted point;
/// a position past the end if there is none.
pub open spec fn next_candidate(index: Seq<DescriptorView>, wanted: Set<i64>, from: nat) -> nat
    decreases index.len() - from,
{
    if from >= index.len() {
        from
    } else if is_candidate(index[from as int], wanted) {
        from
    } else {
        next_candidate(index, wanted, from + 1)
    }
}

/// The search for the next candidate never goes back, and stops at a
/// candidate or past the end.
pub proof fn lemma_next_candidate(index: Seq<DescriptorView>, wanted: Set<i64>, from: nat)
    ensures
        from <= next_candidate(index, wanted, from),
        from <= index.len() ==> next_candidate(index, wanted, from) <= index.len(),
        next_candidate(index, wanted, from) < index.len() ==> is_candidate(
            index[next_candidate(index, wanted, from) as int],
            wanted,
        ),
        forall|p: int|
            from <= p < next_candidate(index, wanted, from) && p < index.len() ==> !is_candidate(
                #[trigger] index[p],
                wanted,
            ),
    decreases index.len() - from,
{
    if from < index.len() && !is_candidate(index[from as int], wanted) {
        lemma_next_candidate(index, wanted, from + 1);
    }
}

/// The second pass waits for the block at its cursor.
pub open spec fn second_pass_awaits(pass: SecondPassView, index: Seq<DescriptorView>) -> bool {
    pass.cursor < index.len() && is_candidate(index[pass.cursor as int], pass.wanted)
}

/// The points that the second pass delivers for a block whose descriptor
/// carries the id range `range`: the points of the block whose id is wanted
/// and lies in that range, in the order of the block.
pub open spec fn resolve_emits<'a>(
    block: &'a PrimitiveBlock,
    wanted: Set<i64>,
    range: (i64, i64),
) -> Seq<Element<'a>> {
    points_in(block.groups@).filter(id_in_range(wanted, range.0, range.1))
}

/// Tells whether an ascending slice holds `id`.
fn holds(sorted_slice: &[i64], id: i64) -> (hit: bool)
    ensures
        ascending(sorted_slice@) ==> hit == sorted_slice@.contains(id),
{
    binary_search(sorted_slice, id).is_ok()
}

/// In the part of a strictly increasing list that covers the ids of a range,
/// an id of that range is found exactly if the whole list holds it.
proof fn lemma_window_holds(
    ids: Seq<i64>,
    first: int,
    last: int,
    lowest: i64,
    highest: i64,
    id: i64,
)
    requires
        strictly_increasing(ids),
        0 <= first <= last < ids.len(),
        forall|k: int|
            0 <= k < ids.len() ==> (lowest <= #[trigger] ids[k] <= highest <==> first <= k <= last),
    ensures
        ascending(ids.subrange(first, last + 1)),
        ids.subrange(first, last + 1).contains(id) <==> ids.to_set().contains(id) && lowest <= id
            <= highest,
{
    let part = ids.subrange(first, last + 1);
    assert forall|i: int, j: int| 0 <= i < j < part.len() implies part[i] <= part[j] by {
        assert(ids[first + i] < ids[first + j]);
    }
    if part.contains(id) {
        let i = choose|i: int| 0 <= i < part.len() && part[i] == id;
        assert(ids[first + i] == id);
        assert(lowest <= ids[first + i] <= highest);
    }
    if ids.to_set().contains(id) && lowest <= id <= highest {
        let k = choose|k: int| 0 <= k < ids.len() && ids[k] == id;
        assert(lowest <= ids[k] <= highest);
        assert(part[k - first] == id);
    }
}

impl SecondPass {
    #[verifier::type_invariant]
    spec fn well_formed(&self) -> bool {
        strictly_increasing(self.node_ids@)
    }

    /// A second pass that starts at the first block, with `node_ids` as the
    /// wanted ids.
    pub(crate) fn over(node_ids: Vec<i64>) -> (pass: SecondPass)
        requires
            strictly_increasing(node_ids@),
        ensures
            pass@ == (SecondPassView { cursor: 0, wanted: node_ids@.to_set() }),
    {
        SecondPass { cursor: 0, node_ids }
    }

    /// The part of the wanted ids that has to be searched for the points of a
    /// block whose point ids run from `lowest` to `highest`: the wanted ids in
    /// that range, if there is one.
    fn window(&self, lowest: i64, highest: i64) -> (part: Option<&[i64]>)
        requires
            lowest <= highest,
        ensures
            part is None <==> !(exists|id: i64| #[trigger]
                self@.wanted.contains(id) && lowest <= id <= highest),
            part matches Some(ids) ==> ascending(ids@) && forall|id: i64|
                #[trigger] ids@.contains(id) <==> self@.wanted.contains(id) && lowest <= id
                    <= highest,
    {
        proof {
            use_type_invariant(self);
        }
        let range = RangeInclusive::new(lowest, highest);
        let span = range_included(&range, self.node_ids.as_slice());
        proof {
            let ids = self.node_ids@;
            if touches(ids, lowest as int, highest as int) {
                let k = choose|k: int| 0 <= k < ids.len() && lowest <= #[trigger] ids[k] <= highest;
                assert(self@.wanted.contains(ids[k]));
            }
            if exists|id: i64| #[trigger] self@.wanted.contains(id) && lowest <= id <= highest {
                let id = choose|id: i64| #[trigger]
                    self@.wanted.contains(id) && lowest <= id <= highest;
                let k = choose|k: int| 0 <= k < ids.len() && ids[k] == id;
                assert(lowest <= ids[k] <= highest);
            }
        }
        match span {
            Some(found) => {
                let first: usize = *found.start();
                let last: usize = *found.end();
                proof {
                    assert(self.node_ids.len() <= usize::MAX);
                    assert forall|id: i64|
                        self.node_ids@.subrange(first as int, last + 1).contains(id)
                            <==> self@.wanted.contains(id) && lowest <= id <= highest by {
                        lemma_window_holds(
                            self.node_ids@,
                            first as int,
                            last as int,
                            lowest,
                            highest,
                            id,
                        );
                    }
                    lemma_window_holds(
                        self.node_ids@,
                        first as int,
                        last as int,
                        lowest,
                        highest,
                        lowest,
                    );
                }
                Some(slice_subrange(self.node_ids.as_slice(), first, last + 1))
            },
            None => None,
        }
    }

    /// The position in the index of the block that the pass looks at next.
    pub fn position(&self) -> (position: usize)
        ensures
            position == self@.cursor,
    {
        self.cursor
    }

    /// Moves on to the next block that may hold a wanted point, and tells where
    /// that block starts; `None` when the pass has been over every block. The
    /// block is to be loaded and handed to `resolve`. A block that cannot hold
    /// a wanted point is passed over and need not be loaded.
    pub fn next_block(&mut self, index: &BlockIndex) -> (offset: Option<u64>)
        ensures
            final(self)@.wanted == old(self)@.wanted,
            final(self)@.cursor == next_candidate(index@, old(self)@.wanted, old(self)@.cursor),
            offset == if final(self)@.cursor < index@.len() {
                Some(index@[final(self)@.cursor as int].offset)
            } else {
                None
            },
    {
        loop
            invariant
                self.node_ids@ == old(self).node_ids@,
                old(self).cursor <= self.cursor,
                next_candidate(index@, self@.wanted, self.cursor as nat) == next_candidate(
                    index@,
                    old(self)@.wanted,
                    old(self).cursor as nat,
                ),
            decreases index@.len() - self.cursor,
        {
            match index.get(self.cursor) {
                None => {
                    return None;
                },
                Some(descriptor) => {
                    if descriptor.kind == BlockKind::RecordBatch {
                        if let Some(ranges) = &descriptor.id_ranges {
                            let (lowest, highest) = ranges.node_bounds();
                            if self.window(lowest, highest).is_some() {
                                return Some(descriptor.offset);
                            }
                        }
                    }
                    proof {
                        use_type_invariant(&*self);
                    }
                    self.cursor += 1;
                },
            }
        }
    }

    /// Takes the block that the pass waits for and answers with the points of
    /// that block whose id is wanted, in the order of the block: they are to be
    /// delivered now. Each id is looked up only among the wanted ids that lie
    /// in the id range of the block. The pass moves past the block.
    ///
    /// While the pass waits for no block, nothing happens.
    pub fn resolve<'a>(&mut self, index: &BlockIndex, block: &'a PrimitiveBlock) -> (points: Vec<
        Element<'a>,
    >)
        ensures
            second_pass_awaits(old(self)@, index@) ==> {
                &&& points@ == resolve_emits(
                    block,
                    old(self)@.wanted,
                    index@[old(self)@.cursor as int].node_ids->0,
                )
                &&& final(self)@ == (SecondPassView {
                    cursor: old(self)@.cursor + 1,
                    wanted: old(self)@.wanted,
                })
            },
            !second_pass_awaits(old(self)@, index@) ==> {
                &&& points@.len() == 0
                &&& final(self)@ == old(self)@
            },
    {
        let mut emitted: Vec<Element<'a>> = Vec::new();
        let range = match index.get(self.cursor) {
            Some(descriptor) => {
                if descriptor.kind == BlockKind::RecordBatch {
                    match &descriptor.id_ranges {
                        Some(ranges) => Some(ranges.node_bounds()),
                        None => None,
                    }
                } else {
                    None
                }
            },
            None => None,
        };
        let (lowest, highest) = match range {
            Some(found) => found,
            None => {
                return emitted;
            },
        };
        let window = match self.window(lowest, highest) {
            Some(part) => part,
            None => {
                return emitted;
            },
        };
        let ghost wanted = self@.wanted;
        let ghost test = id_in_range(wanted, lowest, highest);
        let ghost all = block.groups@;
        let mut g: usize = 0;
        assert(points_in(all.take(0)).filter(test) =~= Seq::empty()) by {
            reveal(Seq::filter);
        }
        while g < block.groups.len()
            invariant
                all == block.groups@,
                g <= all.len(),
                ascending(window@),
                forall|id: i64|
                    #[trigger] window@.contains(id) <==> wanted.contains(id) && lowest <= id
                        <= highest,
                test == id_in_range(wanted, lowest, highest),
                emitted@ == points_in(all.take(g as int)).filter(test),
            decreases all.len() - g,
        {
            let group = &block.groups[g];
            let ghost before = points_in(all.take(g as int));
            let ghost group_all = group_points(group);
            let mut n: usize = 0;
            assert(before + group_all.take(0) =~= before);
            while n < group.nodes.len()
                invariant
                    group_all == group_points(group),
                    n <= group.nodes@.len(),
                    ascending(window@),
                    forall|id: i64|
                        #[trigger] window@.contains(id) <==> wanted.contains(id) && lowest <= id
                            <= highest,
                    test == id_in_range(wanted, lowest, highest),
                    emitted@ == (before + group_all.take(n as int)).filter(test),
                decreases group.nodes@.len() - n,
            {
                let node = &group.nodes[n];
                let hit = holds(window, node.id);
                proof {
                    let element = Element::Node(node);
                    assert(group_all[n as int] == element);
                    assert(before + group_all.take(n + 1) =~= (before + group_all.take(
                        n as int,
                    )).push(element));
                    (before + group_all.take(n as int)).lemma_filter_push(element, test);
                    assert(test(element) == hit);
                }
                if hit {
                    emitted.push(Element::Node(node));
                }
                n += 1;
            }
            let mut d: usize = 0;
            while d < group.dense_nodes.len()
                invariant
                    group_all == group_points(group),
                    n == group.nodes@.len(),
                    d <= group.dense_nodes@.len(),
                    ascending(window@),
                    forall|id: i64|
                        #[trigger] window@.contains(id) <==> wanted.contains(id) && lowest <= id
                            <= highest,
                    test == id_in_range(wanted, lowest, highest),
                    emitted@ == (before + group_all.take(n + d)).filter(test),
                decreases group.dense_nodes@.len() - d,
            {
                let node = &group.dense_nodes[d];
                let hit = holds(window, node.id);
                proof {
                    let element = Element::DenseNode(node);
                    assert(group_all[n + d] == element);
                    assert(before + group_all.take(n + d + 1) =~= (before + group_all.take(
                        n + d,
                    )).push(element));
                    (before + group_all.take(n + d)).lemma_filter_push(element, test);
                    assert(test(element) == hit);
                }
                if hit {
                    emitted.push(Element::DenseNode(node));
                }
                d += 1;
            }
            proof {
                lemma_group_added(all, g as int);
                assert(group_all.take(n + d) =~= group_all);
            }
            g += 1;
        }
        proof {
            assert(all.take(g as int) =~= all);
            use_type_invariant(&*self);
        }
        self.cursor += 1;
        emitted
    }
}

} // verus!

//! The positional index over the blocks of a container.
//!
//! The index is built from the frames of a container and then kept: nothing
//! scans the container again unless the index is built anew. It describes the
//! container as it was when the frames were read, so the container must not
//! change while the index is in use.

use std::ops::RangeInclusive;
use vstd::prelude::*;

verus! {

/// What the framing of a block declares the block to hold.
#[derive(Debug, Clone, PartialEq, Eq)]
pub enum BlobType {
    /// File metadata.
    OsmHeader,
    /// A batch of records.
    OsmData,
    /// Anything else, with the tag as it was found.
    Unknown(String),
}

/// The coarse kind of a block, as the index remembers it.
#[derive(Debug, Clone, Copy, PartialEq, Eq, Structural)]
pub enum BlockKind {
    Metadata,
    RecordBatch,
    /// Kept in its place, never decoded.
    Unrecognized,
}

/// The kind that stands for a declared type.
pub open spec fn kind_of(blob_type: BlobType) -> BlockKind {
    match blob_type {
        BlobType::OsmHeader => BlockKind::Metadata,
        BlobType::OsmData => BlockKind::RecordBatch,
        BlobType::Unknown(_) => BlockKind::Unrecognized,
    }
}

impl BlockKind {
    /// Classifies a block by its declared type.
    pub fn classify(blob_type: &BlobType) -> (kind: BlockKind)
        ensures
            kind == kind_of(*blob_type),
    {
        match blob_type {
            BlobType::OsmHeader => BlockKind::Metadata,
            BlobType::OsmData => BlockKind::RecordBatch,
            BlobType::Unknown(_) => BlockKind::Unrecognized,
        }
    }
}

/// What one forward scan over the framing of a container yields for a block:
/// where the block starts and what it declares itself to be.
#[derive(Debug, Clone, PartialEq, Eq)]
pub struct BlockFrame {
    pub offset: u64,
    pub blob_type: BlobType,
}

/// The lowest and the highest id of each kind of record in a block.
///
/// Only the range of point ids is ever filled in. The two other ranges keep
/// the place of their kinds and always read as absent.
#[derive(Debug, Clone, Copy, PartialEq, Eq)]
pub struct IdRanges {
    node_ids: Option<(i64, i64)>,
    way_ids: Option<(i64, i64)>,
    relation_ids: Option<(i64, i64)>,
}

impl IdRanges {
    #[verifier::type_invariant]
    spec fn well_formed(&self) -> bool {
        &&& self.node_ids matches Some((lowest, highest)) && lowest <= highest
        &&& self.way_ids is None
        &&& self.relation_ids is None
    }

    /// The lowest and the highest point id.
    pub closed spec fn node_range(&self) -> (i64, i64) {
        self.node_ids->0
    }

    /// The ranges of a block whose point ids run from `lowest` to `highest`.
    pub(crate) fn of_nodes(lowest: i64, highest: i64) -> (ranges: IdRanges)
        requires
            lowest <= highest,
        ensures
            ranges.node_range() == (lowest, highest),
    {
        IdRanges { node_ids: Some((lowest, highest)), way_ids: None, relation_ids: None }
    }

    /// The lowest and the highest point id, as a pair.
    pub(crate) fn node_bounds(&self) -> (bounds: (i64, i64))
        ensures
            bounds == self.node_range(),
            bounds.0 <= bounds.1,
    {
        proof {
            use_type_invariant(self);
        }
        self.node_ids.unwrap()
    }

    /// The inclusive range of the point ids.
    pub fn node_ids(&self) -> (range: Option<RangeInclusive<i64>>)
        ensures
            range matches Some(r) && r@.start == self.node_range().0 && r@.end
                == self.node_range().1 && !r@.exhausted,
    {
        proof {
            use_type_invariant(self);
        }
        as_range(self.node_ids)
    }

    /// The inclusive range of the way ids: always absent.
    pub fn way_ids(&self) -> (range: Option<RangeInclusive<i64>>)
        ensures
            range is None,
    {
        proof {
            use_type_invariant(self);
        }
        as_range(self.way_ids)
    }

    /// The inclusive range of the relation ids: always absent.
    pub fn relation_ids(&self) -> (range: Option<RangeInclusive<i64>>)
        ensures
            range is None,
    {
        proof {
            use_type_invariant(self);
        }
        as_range(self.relation_ids)
    }
}

/// The inclusive range between a lowest and a highest id, where they are
/// known.
fn as_range(bounds: Option<(i64, i64)>) -> (range: Option<RangeInclusive<i64>>)
    ensures
        match bounds {
            Some((lowest, highest)) => range matches Some(r) && r@.start == lowest && r@.end
                == highest && !r@.exhausted,
            None => range is None,
        },
{
    match bounds {
        Some((lowest, highest)) => Some(RangeInclusive::new(lowest, highest)),
        None => None,
    }
}

/// What the index holds for one block.
#[derive(Debug, Clone, Copy, PartialEq, Eq)]
pub struct BlockDescriptor {
    /// Where the block starts: the position to seek to before it is decoded.
    pub offset: u64,
    pub kind: BlockKind,
    /// The id ranges that the latest first pass over this block found, if it
    /// found a point there.
    pub id_ranges: Option<IdRanges>,
}

/// A descriptor as contracts speak of it.
pub struct DescriptorView {
    pub offset: u64,
    pub kind: BlockKind,
    /// The lowest and the highest point id that were found in the block.
    pub node_ids: Option<(i64, i64)>,
}

impl View for BlockDescriptor {
    type V = DescriptorView;

    open spec fn view(&self) -> DescriptorView {
        DescriptorView {
            offset: self.offset,
            kind: self.kind,
            node_ids: match self.id_ranges {
                Some(ranges) => Some(ranges.node_range()),
                None => None,
            },
        }
    }
}

/// The descriptor that a freshly built index holds for a frame.
pub open spec fn fresh_descriptor(frame: BlockFrame) -> DescriptorView {
    DescriptorView { offset: frame.offset, kind: kind_of(frame.blob_type), node_ids: None }
}

/// The index that is built from the frames of a container: one descriptor
/// for each frame, in order, with no id range.
pub open spec fn fresh_index(frames: Seq<BlockFrame>) -> Seq<DescriptorView> {
    Seq::new(frames.len(), |i: int| fresh_descriptor(frames[i]))
}

/// The descriptors of the blocks of a container, in container order.
pub struct BlockIndex {
    entries: Vec<BlockDescriptor>,
}

impl View for BlockIndex {
    type V = Seq<DescriptorView>;

    closed spec fn view(&self) -> Seq<DescriptorView> {
        Seq::new(self.entries@.len(), |i: int| self.entries@[i]@)
    }
}

impl BlockIndex {
    /// An index that has not been built yet: it holds no descriptor.
    pub fn new() -> (index: BlockIndex)
        ensures
            index@ == Seq::<DescriptorView>::empty(),
    {
        let index = BlockIndex { entries: Vec::new() };
        assert(index@ =~= Seq::<DescriptorView>::empty());
        index
    }

    /// The number of blocks that the index knows.
    pub fn len(&self) -> (len: usize)
        ensures
            len == self@.len(),
    {
        self.entries.len()
    }

    /// No block is known: the index has not been built, or the container is
    /// empty.
    pub fn is_empty(&self) -> (empty: bool)
        ensures
            empty == (self@.len() == 0),
    {
        self.entries.len() == 0
    }

    /// The descriptor of the block at `position`, if there is one.
    pub fn get(&self, position: usize) -> (descriptor: Option<&BlockDescriptor>)
        ensures
            self@.len() <= usize::MAX,
            match descriptor {
                Some(d) => position < self@.len() && d@ == self@[position as int],
                None => position >= self@.len(),
            },
    {
        if position < self.entries.len() {
            Some(&self.entries[position])
        } else {
            None
        }
    }

    /// Builds the index anew from the frames of a container, in the order in which
    /// one forward scan found them. What the index held before is discarded,
    /// id ranges included.
    pub fn create_index(&mut self, frames: &[BlockFrame])
        ensures
            final(self)@ == fresh_index(frames@),
    {
        self.entries.clear();
        let mut i: usize = 0;
        while i < frames.len()
            invariant
                i <= frames@.len(),
                self.entries@.len() == i,
                forall|k: int|
                    0 <= k < i ==> (#[trigger] self.entries@[k])@ == fresh_descriptor(frames@[k]),
            decreases frames@.len() - i,
        {
            let frame = &frames[i];
            self.entries.push(
                BlockDescriptor {
                    offset: frame.offset,
                    kind: BlockKind::classify(&frame.blob_type),
                    id_ranges: None,
                },
            );
            i += 1;
        }
        assert(self@ =~= fresh_index(frames@));
    }

    /// Records the lowest and the highest point id of the block at `position`, in
    /// place of what was known of that block.
    pub(crate) fn set_node_range(&mut self, position: usize, lowest: i64, highest: i64)
        requires
            position < old(self)@.len(),
            lowest <= highest,
        ensures
            final(self)@ == old(self)@.update(
                position as int,
                (DescriptorView {
                    node_ids: Some((lowest, highest)),
                    ..old(self)@[position as int]
                }),
            ),
    {
        let offset: u64 = self.entries[position].offset;
        let kind = self.entries[position].kind;
        self.entries.set(
            position,
            BlockDescriptor { offset, kind, id_ranges: Some(IdRanges::of_nodes(lowest, highest)) },
        );
        assert(self@ =~= old(self)@.update(
            position as int,
            (DescriptorView { node_ids: Some((lowest, highest)), ..old(self)@[position as int] }),
        ));
    }
}

} // verus!

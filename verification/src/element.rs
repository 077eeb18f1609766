//! The records of a decoded block, as plain values.

use vstd::prelude::*;

verus! {

/// One key with its value, as attached to a record.
#[derive(Debug, Clone, PartialEq, Eq)]
pub struct Tag {
    pub key: String,
    pub value: String,
}

/// A point record that stands alone in its group.
#[derive(Debug, Clone, PartialEq, Eq)]
pub struct Node {
    pub id: i64,
    /// Latitude in units of 1e-9 degrees.
    pub lat: i64,
    /// Longitude in units of 1e-9 degrees.
    pub lon: i64,
    pub tags: Vec<Tag>,
}

/// One entry of a dense batch of points.
#[derive(Debug, Clone, PartialEq, Eq)]
pub struct DenseNode {
    pub id: i64,
    /// Latitude in units of 1e-9 degrees.
    pub lat: i64,
    /// Longitude in units of 1e-9 degrees.
    pub lon: i64,
    pub tags: Vec<Tag>,
}

/// A way: an ordered list of references to points, with tags.
#[derive(Debug, Clone, PartialEq, Eq)]
pub struct Way {
    pub id: i64,
    pub tags: Vec<Tag>,
    /// The ids of the points that the way runs through, in order. An id may
    /// occur more than once.
    pub refs: Vec<i64>,
}

/// A group of records inside a block.
#[derive(Debug, Clone, PartialEq, Eq)]
pub struct PrimitiveGroup {
    pub nodes: Vec<Node>,
    pub dense_nodes: Vec<DenseNode>,
    pub ways: Vec<Way>,
}

/// A decoded block of records.
#[derive(Debug, Clone, PartialEq, Eq)]
pub struct PrimitiveBlock {
    pub groups: Vec<PrimitiveGroup>,
}

/// A record of a block, as it is delivered to a visitor. It borrows from the
/// block and lives no longer than the block does.
#[derive(Debug, Clone, Copy, PartialEq, Eq)]
pub enum Element<'a> {
    Node(&'a Node),
    DenseNode(&'a DenseNode),
    Way(&'a Way),
}

impl<'a> Element<'a> {
    /// The id of the record.
    pub open spec fn spec_id(&self) -> i64 {
        match *self {
            Element::Node(node) => node.id,
            Element::DenseNode(node) => node.id,
            Element::Way(way) => way.id,
        }
    }

    /// The id of the record.
    #[verifier::when_used_as_spec(spec_id)]
    pub fn id(&self) -> (id: i64)
        ensures
            id == self.spec_id(),
    {
        match self {
            Element::Node(node) => node.id,
            Element::DenseNode(node) => node.id,
            Element::Way(way) => way.id,
        }
    }

    /// The record is a point: a node or an entry of a dense batch.
    pub open spec fn is_point(&self) -> bool {
        *self is Node || *self is DenseNode
    }
}

} // verus!

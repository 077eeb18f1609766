//! Filtered random access into a block-structured container of geographic
//! records: a positional index over the blocks, a matcher between id ranges
//! and sorted id lists, and the two passes that turn a way filter into the
//! matching ways followed by the points those ways refer to.
//!
//! Nothing here reads a file. A caller locates and decodes blocks and hands
//! them over as plain values; every decision about which block to load next
//! and which element to deliver is taken, and proved, in this crate.
//!
//! A query runs like this. The index is built once, from the frames that one
//! forward scan of the container yields (`index`). A first pass names, one
//! after the other, the blocks that hold records; for each it answers with
//! the ways that the filter accepts, collects the point ids they refer to and
//! notes the range of the point ids of the block (`first_pass`). When it is
//! finished, a second pass names only the blocks whose range holds a wanted
//! id, and answers with the wanted points of each (`second_pass`, which asks
//! `interval` where to search). What all of this delivers is stated in
//! `query`, and the laws that follow are proved in `laws`.

pub mod element;
pub mod filtering;
pub mod first_pass;
pub mod idset;
pub mod index;
pub mod interval;
pub mod laws;
pub mod query;
pub mod records;
pub mod second_pass;

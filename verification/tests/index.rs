use pbf_index::element::DenseNode;
use pbf_index::element::Node;
use pbf_index::element::PrimitiveBlock;
use pbf_index::element::PrimitiveGroup;
use pbf_index::element::Way;
use pbf_index::index::BlobType;
use pbf_index::index::BlockDescriptor;
use pbf_index::index::BlockFrame;
use pbf_index::index::BlockIndex;
use pbf_index::index::BlockKind;
use pbf_index::first_pass::FirstPass;
use std::ops::RangeInclusive;

fn frames() -> Vec<BlockFrame> {
    vec![
        BlockFrame { offset: 0, blob_type: BlobType::OsmHeader },
        BlockFrame { offset: 130, blob_type: BlobType::OsmData },
        BlockFrame { offset: 9000, blob_type: BlobType::Unknown("OSMOther".to_string()) },
        BlockFrame { offset: 9100, blob_type: BlobType::OsmData },
    ]
}

fn points(nodes: Vec<i64>, dense_nodes: Vec<i64>) -> PrimitiveBlock {
    PrimitiveBlock {
        groups: vec![PrimitiveGroup {
            nodes: nodes.into_iter().map(|id| Node { id, lat: 1, lon: 2, tags: vec![] }).collect(),
            dense_nodes: dense_nodes
                .into_iter()
                .map(|id| DenseNode { id, lat: 3, lon: 4, tags: vec![] })
                .collect(),
            ways: vec![],
        }],
    }
}

fn accept_all(_: &Way) -> bool {
    true
}

#[test]
fn new_index_is_empty() {
    let index = BlockIndex::new();
    assert!(index.is_empty());
    assert_eq!(index.len(), 0);
    assert_eq!(index.get(0), None);
}

#[test]
fn classify_by_declared_type() {
    assert_eq!(BlockKind::classify(&BlobType::OsmHeader), BlockKind::Metadata);
    assert_eq!(BlockKind::classify(&BlobType::OsmData), BlockKind::RecordBatch);
    assert_eq!(BlockKind::classify(&BlobType::Unknown(String::new())), BlockKind::Unrecognized);
    assert_eq!(
        BlockKind::classify(&BlobType::Unknown("OSMData2".to_string())),
        BlockKind::Unrecognized
    );
}

#[test]
fn create_index_keeps_order_offsets_and_kinds() {
    let mut index = BlockIndex::new();
    index.create_index(&frames());
    assert!(!index.is_empty());
    assert_eq!(index.len(), 4);
    let expected = [
        (0, BlockKind::Metadata),
        (130, BlockKind::RecordBatch),
        (9000, BlockKind::Unrecognized),
        (9100, BlockKind::RecordBatch),
    ];
    for (position, (offset, kind)) in expected.iter().enumerate() {
        assert_eq!(
            index.get(position),
            Some(&BlockDescriptor { offset: *offset, kind: *kind, id_ranges: None })
        );
    }
    assert_eq!(index.get(4), None);
}

#[test]
fn first_pass_notes_the_range_of_point_ids() {
    let mut index = BlockIndex::new();
    index.create_index(&frames());
    let mut first = FirstPass::new();
    assert_eq!(first.next_block(&index), Some(130));
    first.scan(&mut index, &points(vec![40, -3, 7], vec![12, 99, 5]), &accept_all);
    let ranges = index.get(1).unwrap().id_ranges.unwrap();
    assert_eq!(ranges.node_ids(), Some(RangeInclusive::new(-3, 99)));
    assert_eq!(ranges.way_ids(), None);
    assert_eq!(ranges.relation_ids(), None);
    assert_eq!(index.get(3).unwrap().id_ranges, None);
}

#[test]
fn block_with_one_point_has_a_range_of_one_id() {
    let mut index = BlockIndex::new();
    index.create_index(&frames());
    let mut first = FirstPass::new();
    first.next_block(&index);
    first.scan(&mut index, &points(vec![], vec![i64::MIN]), &accept_all);
    let ranges = index.get(1).unwrap().id_ranges.unwrap();
    assert_eq!(ranges.node_ids(), Some(RangeInclusive::new(i64::MIN, i64::MIN)));
}

#[test]
fn block_without_points_gets_no_range() {
    let mut index = BlockIndex::new();
    index.create_index(&frames());
    let mut first = FirstPass::new();
    first.next_block(&index);
    first.scan(&mut index, &points(vec![], vec![]), &accept_all);
    assert_eq!(index.get(1).unwrap().id_ranges, None);
    assert_eq!(first.next_block(&index), Some(9100));
    first.scan(&mut index, &points(vec![6], vec![]), &accept_all);
    assert_eq!(index.get(1).unwrap().id_ranges, None);
    assert!(index.get(3).unwrap().id_ranges.is_some());
}

#[test]
fn later_pass_overwrites_the_range() {
    let mut index = BlockIndex::new();
    index.create_index(&frames());
    let mut first = FirstPass::new();
    first.next_block(&index);
    first.scan(&mut index, &points(vec![2, 8], vec![]), &accept_all);
    let mut again = FirstPass::new();
    again.next_block(&index);
    again.scan(&mut index, &points(vec![100], vec![300]), &accept_all);
    let ranges = index.get(1).unwrap().id_ranges.unwrap();
    assert_eq!(ranges.node_ids(), Some(RangeInclusive::new(100, 300)));
}

#[test]
fn rebuilding_discards_the_ranges() {
    let mut index = BlockIndex::new();
    index.create_index(&frames());
    let mut first = FirstPass::new();
    first.next_block(&index);
    first.scan(&mut index, &points(vec![2, 8], vec![]), &accept_all);
    assert!(index.get(1).unwrap().id_ranges.is_some());
    index.create_index(&frames()[..2]);
    assert_eq!(index.len(), 2);
    assert_eq!(index.get(1).unwrap().id_ranges, None);
    index.create_index(&[]);
    assert!(index.is_empty());
}

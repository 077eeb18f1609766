use pbf_index::element::DenseNode;
use pbf_index::element::Element;
use pbf_index::element::Node;
use pbf_index::element::PrimitiveBlock;
use pbf_index::element::PrimitiveGroup;
use pbf_index::element::Tag;
use pbf_index::element::Way;
use pbf_index::index::BlobType;
use pbf_index::index::BlockFrame;
use pbf_index::index::BlockIndex;
use pbf_index::query::run_query;
use pbf_index::first_pass::FirstPass;

/// A container in memory: the frame and the decoded block of each position.
struct Container {
    frames: Vec<BlockFrame>,
    blocks: Vec<PrimitiveBlock>,
}

/// What a query did: the elements it delivered and the offsets it loaded.
#[derive(Debug, PartialEq, Eq)]
struct Trace {
    delivered: Vec<String>,
    first_pass_loads: Vec<u64>,
    second_pass_loads: Vec<u64>,
}

fn tag(key: &str, value: &str) -> Tag {
    Tag { key: key.to_string(), value: value.to_string() }
}

fn node(id: i64) -> Node {
    Node { id, lat: 0, lon: 0, tags: vec![] }
}

fn dense(id: i64) -> DenseNode {
    DenseNode { id, lat: 0, lon: 0, tags: vec![] }
}

fn way(id: i64, tags: Vec<Tag>, refs: Vec<i64>) -> Way {
    Way { id, tags, refs }
}

fn group(nodes: Vec<Node>, dense_nodes: Vec<DenseNode>, ways: Vec<Way>) -> PrimitiveGroup {
    PrimitiveGroup { nodes, dense_nodes, ways }
}

fn block(groups: Vec<PrimitiveGroup>) -> PrimitiveBlock {
    PrimitiveBlock { groups }
}

fn empty_block() -> PrimitiveBlock {
    block(vec![])
}

fn container(parts: Vec<(BlobType, PrimitiveBlock)>) -> Container {
    let mut frames = vec![];
    let mut blocks = vec![];
    for (position, (blob_type, decoded)) in parts.into_iter().enumerate() {
        frames.push(BlockFrame { offset: 100 * position as u64 + 7, blob_type });
        blocks.push(decoded);
    }
    Container { frames, blocks }
}

fn describe(element: &Element) -> String {
    match element {
        Element::Way(way) => format!("way {}", way.id),
        Element::Node(node) => format!("node {}", node.id),
        Element::DenseNode(node) => format!("dense {}", node.id),
    }
}

fn is_building(way: &Way) -> bool {
    way.tags.iter().any(|tag| tag.key == "building" && tag.value == "yes")
}

/// Runs a query as a reader does: each pass names an offset, the block that
/// starts there is looked up, and what the pass answers with is delivered.
fn read_ways_and_deps<F: Fn(&Way) -> bool>(
    container: &Container,
    index: &mut BlockIndex,
    filter: F,
) -> Trace {
    if index.is_empty() {
        index.create_index(&container.frames);
    }
    let load = |offset: u64| -> &PrimitiveBlock {
        let position = container.frames.iter().position(|frame| frame.offset == offset).unwrap();
        &container.blocks[position]
    };
    let mut trace =
        Trace { delivered: vec![], first_pass_loads: vec![], second_pass_loads: vec![] };
    let mut first = FirstPass::new();
    while let Some(offset) = first.next_block(index) {
        trace.first_pass_loads.push(offset);
        for element in first.scan(index, load(offset), &filter) {
            trace.delivered.push(describe(&element));
        }
    }
    let mut second = first.finish();
    while let Some(offset) = second.next_block(index) {
        trace.second_pass_loads.push(offset);
        for element in second.resolve(index, load(offset)) {
            trace.delivered.push(describe(&element));
        }
    }
    trace
}

fn building_container() -> Container {
    container(vec![
        (BlobType::OsmHeader, empty_block()),
        (
            BlobType::OsmData,
            block(vec![group(
                vec![node(11), node(40)],
                vec![dense(12), dense(13)],
                vec![
                    way(1, vec![tag("building", "yes")], vec![11, 12, 13, 11]),
                    way(2, vec![tag("highway", "path")], vec![40]),
                ],
            )]),
        ),
    ])
}

#[test]
fn building_way_and_its_three_points() {
    let container = building_container();
    let mut index = BlockIndex::new();
    let trace = read_ways_and_deps(&container, &mut index, is_building);
    assert_eq!(trace.delivered, vec!["way 1", "node 11", "dense 12", "dense 13"]);
    let ways = trace.delivered.iter().filter(|line| line.starts_with("way")).count();
    assert_eq!(ways, 1);
    assert_eq!(trace.delivered.len() - ways, 3);
    assert!(!trace.delivered.contains(&"way 2".to_string()));
    assert!(!trace.delivered.contains(&"node 40".to_string()));
}

#[test]
fn building_scenario_in_memory() {
    let container = building_container();
    let mut index = BlockIndex::new();
    index.create_index(&container.frames);
    let delivered = run_query(&mut index, &container.blocks, &is_building).unwrap();
    let lines: Vec<String> = delivered.iter().map(describe).collect();
    assert_eq!(lines, vec!["way 1", "node 11", "dense 12", "dense 13"]);
}

#[test]
fn ways_are_delivered_where_they_are_met() {
    let container = building_container();
    let mut index = BlockIndex::new();
    index.create_index(&container.frames);
    let mut first = FirstPass::new();
    assert_eq!(first.next_block(&index), Some(107));
    assert_eq!(first.position(), 1);
    let ways = first.scan(&mut index, &container.blocks[1], &is_building);
    assert_eq!(ways, vec![Element::Way(&container.blocks[1].groups[0].ways[0])]);
    assert_eq!(first.position(), 2);
    assert_eq!(first.next_block(&index), None);
}

fn two_batches() -> Container {
    container(vec![
        (BlobType::OsmHeader, empty_block()),
        (
            BlobType::OsmData,
            block(vec![
                group(vec![node(5), node(1)], vec![], vec![]),
                group(vec![], vec![dense(3)], vec![way(100, vec![], vec![9, 3, 5, 3])]),
            ]),
        ),
        (BlobType::Unknown("OSMExtra".to_string()), empty_block()),
        (
            BlobType::OsmData,
            block(vec![group(
                vec![node(9)],
                vec![dense(8), dense(20)],
                vec![way(101, vec![], vec![5, 9, 9]), way(102, vec![], vec![20, 1])],
            )]),
        ),
        (BlobType::OsmData, block(vec![group(vec![node(50), node(60)], vec![], vec![])])),
        (BlobType::OsmData, block(vec![group(vec![], vec![], vec![way(103, vec![], vec![60])])])),
    ])
}

fn below_102(way: &Way) -> bool {
    way.id < 102
}

#[test]
fn each_referenced_point_once() {
    let container = two_batches();
    let mut index = BlockIndex::new();
    let trace = read_ways_and_deps(&container, &mut index, below_102);
    assert_eq!(
        trace.delivered,
        vec!["way 100", "way 101", "node 5", "dense 3", "node 9"]
    );
    for id in [3, 5, 9] {
        let hits = trace
            .delivered
            .iter()
            .filter(|line| **line == format!("node {}", id) || **line == format!("dense {}", id))
            .count();
        assert_eq!(hits, 1);
    }
}

#[test]
fn no_point_without_a_reference() {
    let container = two_batches();
    let mut index = BlockIndex::new();
    let trace = read_ways_and_deps(&container, &mut index, below_102);
    for id in [1, 8, 20, 50, 60] {
        assert!(!trace.delivered.contains(&format!("node {}", id)));
        assert!(!trace.delivered.contains(&format!("dense {}", id)));
    }
}

#[test]
fn all_ways_before_the_first_point() {
    let container = two_batches();
    let mut index = BlockIndex::new();
    let trace = read_ways_and_deps(&container, &mut index, |_| true);
    assert_eq!(
        trace.delivered,
        vec![
            "way 100", "way 101", "way 102", "way 103", "node 5", "node 1", "dense 3", "node 9",
            "dense 20", "node 60"
        ]
    );
    let first_point = trace.delivered.iter().position(|line| !line.starts_with("way")).unwrap();
    assert!(trace.delivered[first_point..].iter().all(|line| !line.starts_with("way")));
}

#[test]
fn same_query_twice_delivers_the_same() {
    let container = two_batches();
    let mut index = BlockIndex::new();
    let once = read_ways_and_deps(&container, &mut index, below_102);
    let again = read_ways_and_deps(&container, &mut index, below_102);
    assert_eq!(once, again);
}

#[test]
fn second_query_as_on_a_fresh_index() {
    let container = two_batches();
    let mut used = BlockIndex::new();
    read_ways_and_deps(&container, &mut used, below_102);
    let reused = read_ways_and_deps(&container, &mut used, |way| way.id == 103);
    let mut fresh = BlockIndex::new();
    let alone = read_ways_and_deps(&container, &mut fresh, |way| way.id == 103);
    assert_eq!(reused, alone);
    assert_eq!(reused.delivered, vec!["way 103", "node 60"]);
}

#[test]
fn first_pass_loads_every_batch_and_nothing_else() {
    let container = two_batches();
    let mut index = BlockIndex::new();
    let trace = read_ways_and_deps(&container, &mut index, below_102);
    assert_eq!(trace.first_pass_loads, vec![107, 307, 407, 507]);
}

#[test]
fn second_pass_skips_blocks_out_of_range() {
    let container = two_batches();
    let mut index = BlockIndex::new();
    let trace = read_ways_and_deps(&container, &mut index, below_102);
    // wanted ids are 3, 5 and 9; the block at 407 holds 50..=60, the one at 507 no point
    assert_eq!(trace.second_pass_loads, vec![107, 307]);
    let only_60 = read_ways_and_deps(&container, &mut index, |way| way.id == 103);
    assert_eq!(only_60.second_pass_loads, vec![407]);
}

#[test]
fn block_in_range_without_a_wanted_point_is_loaded_and_gives_nothing() {
    let container = container(vec![
        (BlobType::OsmData, block(vec![group(vec![node(1), node(9)], vec![], vec![])])),
        (BlobType::OsmData, block(vec![group(vec![], vec![], vec![way(7, vec![], vec![5])])])),
    ]);
    let mut index = BlockIndex::new();
    let trace = read_ways_and_deps(&container, &mut index, |_| true);
    assert_eq!(trace.delivered, vec!["way 7"]);
    assert_eq!(trace.second_pass_loads, vec![7]);
}

#[test]
fn no_way_accepted_loads_nothing_in_the_second_pass() {
    let container = two_batches();
    let mut index = BlockIndex::new();
    let trace = read_ways_and_deps(&container, &mut index, |_| false);
    assert_eq!(trace.delivered, Vec::<String>::new());
    assert_eq!(trace.first_pass_loads, vec![107, 307, 407, 507]);
    assert_eq!(trace.second_pass_loads, Vec::<u64>::new());
}

#[test]
fn empty_container_delivers_nothing() {
    let container = container(vec![]);
    let mut index = BlockIndex::new();
    let trace = read_ways_and_deps(&container, &mut index, |_| true);
    assert_eq!(
        trace,
        Trace { delivered: vec![], first_pass_loads: vec![], second_pass_loads: vec![] }
    );
}

#[test]
fn collected_ids_are_sorted_before_the_search() {
    // the references come in descending order; the points are found all the same
    let container = container(vec![(
        BlobType::OsmData,
        block(vec![group(
            vec![node(3), node(5), node(9)],
            vec![],
            vec![way(1, vec![], vec![9, 5, 3])],
        )]),
    )]);
    let mut index = BlockIndex::new();
    let trace = read_ways_and_deps(&container, &mut index, |_| true);
    assert_eq!(trace.delivered, vec!["way 1", "node 3", "node 5", "node 9"]);
}

#[test]
fn point_stored_twice_is_delivered_twice() {
    let container = container(vec![
        (
            BlobType::OsmData,
            block(vec![group(vec![node(4)], vec![], vec![way(1, vec![], vec![4])])]),
        ),
        (BlobType::OsmData, block(vec![group(vec![], vec![dense(4)], vec![])])),
    ]);
    let mut index = BlockIndex::new();
    let trace = read_ways_and_deps(&container, &mut index, |_| true);
    assert_eq!(trace.delivered, vec!["way 1", "node 4", "dense 4"]);
}

#[test]
fn referenced_point_that_is_not_stored_is_not_delivered() {
    let container = container(vec![(
        BlobType::OsmData,
        block(vec![group(vec![node(4)], vec![], vec![way(1, vec![], vec![4, 77])])]),
    )]);
    let mut index = BlockIndex::new();
    let trace = read_ways_and_deps(&container, &mut index, |_| true);
    assert_eq!(trace.delivered, vec!["way 1", "node 4"]);
}

#[test]
fn run_query_agrees_with_the_passes() {
    let container = two_batches();
    let mut stepped = BlockIndex::new();
    let trace = read_ways_and_deps(&container, &mut stepped, below_102);
    let mut index = BlockIndex::new();
    index.create_index(&container.frames);
    let delivered = run_query(&mut index, &container.blocks, &below_102).unwrap();
    let lines: Vec<String> = delivered.iter().map(describe).collect();
    assert_eq!(lines, trace.delivered);
    for position in 0..container.frames.len() {
        assert_eq!(index.get(position), stepped.get(position));
    }
}

#[test]
fn run_query_refuses_blocks_that_do_not_match_the_index() {
    let container = two_batches();
    let mut index = BlockIndex::new();
    index.create_index(&container.frames);
    assert_eq!(run_query(&mut index, &container.blocks[1..], &below_102), None);
    assert_eq!(index.get(1).unwrap().id_ranges, None);
}

#[test]
fn scan_without_a_block_awaited_does_nothing() {
    let container = two_batches();
    let mut index = BlockIndex::new();
    index.create_index(&container.frames);
    let mut first = FirstPass::new();
    // position 0 holds the header: no block is awaited there
    let ways = first.scan(&mut index, &container.blocks[1], &|_| true);
    assert_eq!(ways, vec![]);
    assert_eq!(first.position(), 0);
    assert_eq!(index.get(0).unwrap().id_ranges, None);
    let mut second = first.finish();
    assert_eq!(second.resolve(&index, &container.blocks[1]), vec![]);
    assert_eq!(second.position(), 0);
}

#[test]
fn element_id_of_each_kind() {
    let a_node = node(4);
    let a_dense = dense(5);
    let a_way = way(6, vec![], vec![]);
    assert_eq!(Element::Node(&a_node).id(), 4);
    assert_eq!(Element::DenseNode(&a_dense).id(), 5);
    assert_eq!(Element::Way(&a_way).id(), 6);
}

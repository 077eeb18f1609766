use pbf_index::interval::binary_search;
use pbf_index::interval::range_included;
use std::ops::RangeInclusive;

#[test]
fn test_range_included() {
    assert_eq!(range_included(&RangeInclusive::new(0, 0), &[1,2,3]), None);
    assert_eq!(range_included(&RangeInclusive::new(1, 1), &[1,2,3]), Some(RangeInclusive::new(0, 0)));
    assert_eq!(range_included(&RangeInclusive::new(2, 2), &[1,2,3]), Some(RangeInclusive::new(1, 1)));
    assert_eq!(range_included(&RangeInclusive::new(3, 3), &[1,2,3]), Some(RangeInclusive::new(2, 2)));
    assert_eq!(range_included(&RangeInclusive::new(4, 4), &[1,2,3]), None);
    assert_eq!(range_included(&RangeInclusive::new(0, 1), &[1,2,3]), Some(RangeInclusive::new(0, 0)));
    assert_eq!(range_included(&RangeInclusive::new(3, 4), &[1,2,3]), Some(RangeInclusive::new(2, 2)));
    assert_eq!(range_included(&RangeInclusive::new(4, 4), &[1,2,6]), None);
    assert_eq!(range_included(&RangeInclusive::new(2, 3), &[1,2,6]), Some(RangeInclusive::new(1, 1)));
    assert_eq!(range_included(&RangeInclusive::new(5, 6), &[1,2,6]), Some(RangeInclusive::new(2, 2)));
    assert_eq!(range_included(&RangeInclusive::new(5, 8), &[1,2,6]), Some(RangeInclusive::new(2, 2)));
    assert_eq!(range_included(&RangeInclusive::new(0, 8), &[1,2,6]), Some(RangeInclusive::new(0, 2)));
    assert_eq!(range_included(&RangeInclusive::new(0, 4), &[1,2,6]), Some(RangeInclusive::new(0, 1)));
}

#[test]
fn binary_search_finds_each_element() {
    let ids = [-7, -2, 0, 3, 9, 40];
    for (position, id) in ids.iter().enumerate() {
        assert_eq!(binary_search(&ids, *id), Ok(position));
    }
}

#[test]
fn binary_search_gives_the_insertion_point() {
    let ids = [-7, -2, 0, 3, 9, 40];
    assert_eq!(binary_search(&ids, -8), Err(0));
    assert_eq!(binary_search(&ids, -1), Err(2));
    assert_eq!(binary_search(&ids, 10), Err(5));
    assert_eq!(binary_search(&ids, 41), Err(6));
    assert_eq!(binary_search(&[], 0), Err(0));
}

#[test]
fn binary_search_agrees_with_the_standard_library() {
    let ids = [-7, -2, 0, 3, 9, 40];
    for x in -10..45 {
        assert_eq!(binary_search(&ids, x), ids.binary_search(&x));
    }
}

#[test]
fn literal_vectors_of_the_matcher() {
    let none: Option<RangeInclusive<usize>> = None;
    assert_eq!(range_included(&RangeInclusive::new(0, 0), &[1, 2, 3]), none);
    assert_eq!(range_included(&RangeInclusive::new(1, 1), &[1, 2, 3]), Some(0..=0));
    assert_eq!(range_included(&RangeInclusive::new(3, 4), &[1, 2, 3]), Some(2..=2));
    assert_eq!(range_included(&RangeInclusive::new(4, 4), &[1, 2, 6]), none);
    assert_eq!(range_included(&RangeInclusive::new(2, 3), &[1, 2, 6]), Some(1..=1));
    assert_eq!(range_included(&RangeInclusive::new(5, 8), &[1, 2, 6]), Some(2..=2));
    assert_eq!(range_included(&RangeInclusive::new(0, 8), &[1, 2, 6]), Some(0..=2));
    assert_eq!(range_included(&RangeInclusive::new(0, 4), &[1, 2, 6]), Some(0..=1));
}

#[test]
fn span_covers_exactly_the_elements_in_range() {
    let ids = [-9, -4, 0, 1, 2, 6, 7, 30];
    for lo in -11..33 {
        for hi in lo..33 {
            let inside: Vec<usize> =
                (0..ids.len()).filter(|k| lo <= ids[*k] && ids[*k] <= hi).collect();
            let span = range_included(&RangeInclusive::new(lo, hi), &ids);
            match span {
                None => assert!(inside.is_empty()),
                Some(span) => {
                    assert_eq!(*span.start(), *inside.first().unwrap());
                    assert_eq!(*span.end(), *inside.last().unwrap());
                    assert_eq!(span.end() - span.start() + 1, inside.len());
                }
            }
        }
    }
}

#[test]
fn empty_list_matches_nothing() {
    assert_eq!(range_included(&RangeInclusive::new(i64::MIN, i64::MAX), &[]), None);
}

#[test]
fn whole_range_of_ids_matches_everything() {
    assert_eq!(
        range_included(&RangeInclusive::new(i64::MIN, i64::MAX), &[i64::MIN, 0, i64::MAX]),
        Some(0..=2)
    );
}

#[test]
fn bounds_out_of_order() {
    // between 1 and 5 lies 2: the span starts where 5 would go and ends
    // before the ids above 1
    assert_eq!(range_included(&RangeInclusive::new(5, 1), &[1, 2, 6]), Some(2..=0));
    // nothing lies between 3 and 5
    assert_eq!(range_included(&RangeInclusive::new(5, 3), &[1, 2, 6]), None);
    // the end of the span stops at position 0
    assert_eq!(range_included(&RangeInclusive::new(2, 0), &[1, 2, 3]), Some(1..=0));
    assert_eq!(range_included(&RangeInclusive::new(0, -5), &[1, 2, 3]), None);
}

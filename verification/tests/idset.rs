use pbf_index::idset::dedup;

fn deduped(ids: &[i64]) -> Vec<i64> {
    let mut ids = ids.to_vec();
    dedup(&mut ids);
    ids
}

#[test]
fn dedup_removes_repeats_that_follow_each_other() {
    assert_eq!(deduped(&[1, 1, 2, 3, 3, 3, 9]), vec![1, 2, 3, 9]);
    assert_eq!(deduped(&[4, 4, 4, 4]), vec![4]);
    assert_eq!(deduped(&[1, 2, 1, 1, 2, 2, 1]), vec![1, 2, 1, 2, 1]);
}

#[test]
fn dedup_leaves_short_and_distinct_lists_alone() {
    assert_eq!(deduped(&[]), Vec::<i64>::new());
    assert_eq!(deduped(&[7]), vec![7]);
    assert_eq!(deduped(&[-1, 0, 1]), vec![-1, 0, 1]);
}

#[test]
fn dedup_agrees_with_the_standard_library() {
    let lists: [&[i64]; 5] =
        [&[], &[5, 5], &[1, 2, 2, 3, 3, 3, 4], &[0, 0, 1, 0, 0], &[i64::MIN, i64::MIN, i64::MAX]];
    for list in lists {
        let mut expected = list.to_vec();
        expected.dedup();
        assert_eq!(deduped(list), expected);
    }
}

#[test]
fn sort_and_dedup_gives_each_id_once_in_order() {
    let mut ids = vec![9, 3, 5, 3, 9, 9, -1, 5];
    pbf_index::idset::sort_and_dedup(&mut ids);
    assert_eq!(ids, vec![-1, 3, 5, 9]);
}

#[test]
fn sort_and_dedup_of_nothing_and_of_one() {
    let mut none: Vec<i64> = vec![];
    pbf_index::idset::sort_and_dedup(&mut none);
    assert_eq!(none, Vec::<i64>::new());
    let mut one = vec![i64::MAX];
    pbf_index::idset::sort_and_dedup(&mut one);
    assert_eq!(one, vec![i64::MAX]);
}

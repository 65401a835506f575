use yakumo::binary_search::BinarySearch;

#[test]
fn test_search_sorted_first() {
    let v = [1, 2, 4, 5, 5, 7];
    assert_eq!(v.search_sorted_first(&4), 2);
    assert_eq!(v.search_sorted_first(&5), 3);
    assert_eq!(v.search_sorted_first(&3), 2);
    assert_eq!(v.search_sorted_first(&9), 6);
    assert_eq!(v.search_sorted_first(&0), 0);
}

#[test]
fn test_search_sorted_last() {
    let v = [1, 2, 4, 5, 5, 7];
    assert_eq!(v.search_sorted_last(&4), 3);
    assert_eq!(v.search_sorted_last(&5), 5);
    assert_eq!(v.search_sorted_last(&3), 2);
    assert_eq!(v.search_sorted_last(&9), 6);
    assert_eq!(v.search_sorted_last(&0), 0);
}

#[test]
fn search_in_empty_slice() {
    let v: [i32; 0] = [];
    assert_eq!(v.search_sorted_first(&1), 0);
    assert_eq!(v.search_sorted_last(&1), 0);
}

use hoffman::ndarray::NdArray;

#[test]
fn new_store_is_empty() {
    let store: NdArray<u8> = NdArray::new(&vec![2, 3]);
    assert_eq!(store.n(), 2);
    assert_eq!(store.shape(), &vec![2, 3]);
    assert_eq!(store.coords().len(), 6);
    for coord in store.coords() {
        assert!(!store.contains_key(coord));
        assert_eq!(store.get(coord), None);
    }
}

#[test]
fn index_is_row_major() {
    let store: NdArray<u8> = NdArray::new(&vec![2, 3, 4]);
    assert_eq!(store.index(&vec![0, 0, 0]), 0);
    assert_eq!(store.index(&vec![0, 0, 3]), 3);
    assert_eq!(store.index(&vec![0, 1, 0]), 4);
    assert_eq!(store.index(&vec![1, 0, 0]), 12);
    assert_eq!(store.index(&vec![1, 2, 3]), 23);
    for (k, coord) in store.coords().iter().enumerate() {
        assert_eq!(store.index(coord), k);
        assert_eq!(store.coord(k), coord);
    }
}

#[test]
fn insert_get_remove() {
    let mut store: NdArray<u8> = NdArray::new(&vec![2, 2]);
    store.insert(&vec![1, 0], 7);
    assert!(store.contains_key(&vec![1, 0]));
    assert!(!store.contains_key(&vec![0, 1]));
    assert_eq!(store.get(&vec![1, 0]), Some(&7));
    store.insert(&vec![1, 0], 9);
    assert_eq!(store.get(&vec![1, 0]), Some(&9));
    assert_eq!(store.remove(&vec![1, 0]), Some(9));
    assert_eq!(store.remove(&vec![1, 0]), None);
    assert!(!store.contains_key(&vec![1, 0]));
}

#[test]
fn differences_count_cells_that_differ() {
    let mut a: NdArray<u8> = NdArray::new(&vec![2, 2]);
    let mut b: NdArray<u8> = NdArray::new(&vec![2, 2]);
    assert_eq!(a.differences(&b), 0);
    a.insert(&vec![0, 0], 1);
    assert_eq!(a.differences(&b), 1);
    assert_eq!(b.differences(&a), 1);
    b.insert(&vec![0, 0], 2);
    assert_eq!(a.differences(&b), 1);
    b.insert(&vec![0, 0], 1);
    assert_eq!(a.differences(&b), 0);
    b.insert(&vec![1, 1], 1);
    a.insert(&vec![0, 1], 1);
    assert_eq!(a.differences(&b), 2);
}

#[test]
fn map_moves_and_changes_entries() {
    let mut store: NdArray<u8> = NdArray::new(&vec![2, 3]);
    store.insert(&vec![0, 1], 10);
    store.insert(&vec![1, 2], 20);
    let mapped = store.map(|(coord, value)| (vec![1 - coord[0], coord[1]], value + 1));
    assert_eq!(mapped.shape(), &vec![2, 3]);
    assert_eq!(mapped.get(&vec![1, 1]), Some(&11));
    assert_eq!(mapped.get(&vec![0, 2]), Some(&21));
    assert_eq!(mapped.get(&vec![0, 1]), None);
    assert_eq!(mapped.get(&vec![1, 2]), None);
    assert_eq!(store.differences(&mapped), 4);
}

#[test]
fn map_keeps_the_last_of_two_entries_sent_to_one_cell() {
    let mut store: NdArray<u8> = NdArray::new(&vec![3]);
    store.insert(&vec![0], 1);
    store.insert(&vec![2], 3);
    let mapped = store.map(|(_, value)| (vec![1], *value));
    assert_eq!(mapped.get(&vec![1]), Some(&3));
    assert_eq!(mapped.get(&vec![0]), None);
}

#[test]
fn iter_walks_filled_cells_in_order() {
    let mut store: NdArray<u8> = NdArray::new(&vec![2, 2]);
    store.insert(&vec![1, 1], 4);
    store.insert(&vec![0, 1], 2);
    let mut iter = store.iter();
    assert_eq!(iter.next(), Some((&vec![0, 1], &2)));
    assert_eq!(iter.next(), Some((&vec![1, 1], &4)));
    assert_eq!(iter.next(), None);
    assert_eq!(iter.next(), None);
}

#[test]
fn clone_and_equality() {
    let mut store: NdArray<u8> = NdArray::new(&vec![2, 2]);
    store.insert(&vec![1, 1], 4);
    let copy = store.clone();
    assert!(copy == store);
    store.insert(&vec![0, 0], 1);
    assert!(copy != store);
    let other: NdArray<u8> = NdArray::new(&vec![4]);
    let empty: NdArray<u8> = NdArray::new(&vec![2, 2]);
    assert!(other != empty);
}

#[test]
fn store_without_axes_has_one_cell() {
    let mut store: NdArray<u8> = NdArray::new(&vec![]);
    assert_eq!(store.coords().len(), 1);
    store.insert(&vec![], 5);
    assert_eq!(store.get(&vec![]), Some(&5));
}

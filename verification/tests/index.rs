use kvstore::index::Index;

#[test]
fn index_starts_empty() {
    let idx = Index::new();
    assert_eq!(idx.len(), 0);
    assert!(idx.get(b"a").is_none());
    assert!(idx.keys().is_empty());
}

#[test]
fn index_insert_overwrites_in_place() {
    let mut idx = Index::new();
    idx.insert(b"a".to_vec(), b"1".to_vec());
    idx.insert(b"b".to_vec(), b"2".to_vec());
    idx.insert(b"a".to_vec(), b"3".to_vec());
    assert_eq!(idx.len(), 2);
    assert_eq!(idx.get(b"a"), Some(&b"3".to_vec()));
    assert_eq!(idx.get(b"b"), Some(&b"2".to_vec()));
    assert_eq!(idx.keys(), vec![b"a".to_vec(), b"b".to_vec()]);
    assert_eq!(idx.find(b"b"), Some(1));
    assert_eq!(idx.find(b"c"), None);
    assert_eq!(idx.entry(0).value, b"3".to_vec());
}

#[test]
fn index_remove_says_whether_the_key_was_there() {
    let mut idx = Index::new();
    idx.insert(b"a".to_vec(), b"1".to_vec());
    idx.insert(b"b".to_vec(), b"2".to_vec());
    idx.insert(b"c".to_vec(), b"3".to_vec());
    assert!(idx.remove(b"b"));
    assert!(!idx.remove(b"b"));
    assert_eq!(idx.keys(), vec![b"a".to_vec(), b"c".to_vec()]);
    assert!(idx.get(b"b").is_none());
}

#[test]
fn select_values_takes_the_marked_places() {
    let mut idx = Index::new();
    idx.insert(b"a".to_vec(), b"1".to_vec());
    idx.insert(b"b".to_vec(), b"2".to_vec());
    idx.insert(b"c".to_vec(), b"3".to_vec());
    assert_eq!(idx.select_values(&[true, false, true]), vec![b"1".to_vec(), b"3".to_vec()]);
    assert_eq!(idx.select_values(&[false, true]), vec![b"2".to_vec()]);
    assert_eq!(idx.select_values(&[]), Vec::<Vec<u8>>::new());
    assert_eq!(idx.select_values(&[true, true, true, true]).len(), 3);
}

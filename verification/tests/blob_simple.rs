use lsm_tree::BlobTree;

#[test]
fn blob_simple() {
    let mut tree = BlobTree::open();

    let big_value = b"neptune!".repeat(128_000);
    assert_eq!(big_value.len(), 1_024_000);

    assert!(tree.get(&b"big".to_vec()).unwrap().is_none());
    tree.insert(&b"big".to_vec(), &big_value, 0);
    tree.insert(&b"smol".to_vec(), &b"small value".to_vec(), 0);

    let value = tree.get(&b"big".to_vec()).unwrap().expect("should exist");
    assert_eq!(value, big_value);

    assert!(tree.get(&b"xyz".to_vec()).unwrap().is_none());

    tree.flush_active_memtable().unwrap();

    let value = tree.get(&b"big".to_vec()).unwrap().expect("should exist");
    assert_eq!(value, big_value);

    let value = tree.get(&b"smol".to_vec()).unwrap().expect("should exist");
    assert_eq!(value, b"small value".to_vec());

    assert!(tree.get(&b"xyz".to_vec()).unwrap().is_none());
}

use lsm_tree::codec::{decode, EncodedEntry};
use lsm_tree::index::ValueType;
use lsm_tree::range::Bound;
use lsm_tree::AbstractTree;
use lsm_tree::BlobTree;

fn k(s: &[u8]) -> Vec<u8> {
    s.to_vec()
}

fn big() -> Vec<u8> {
    b"neptune!".repeat(128_000)
}

#[test]
fn small_inline() {
    let mut tree = BlobTree::open();
    tree.insert(&k(b"abc"), &k(b"asd"), 0);
    assert_eq!(tree.get(&k(b"abc")).unwrap(), Some(k(b"asd")));
    assert_eq!(tree.get(&k(b"asd")).unwrap(), None);
}

#[test]
fn overwrite_across_flush() {
    let mut tree = BlobTree::open();
    tree.insert(&k(b"k"), &k(b"v1"), 1);
    assert_eq!(tree.flush_active_memtable().unwrap(), Some(()));
    tree.insert(&k(b"k"), &k(b"v2"), 2);
    assert_eq!(tree.get(&k(b"k")).unwrap(), Some(k(b"v2")));
    assert_eq!(tree.flush_active_memtable().unwrap(), Some(()));
    assert_eq!(tree.get(&k(b"k")).unwrap(), Some(k(b"v2")));
}

#[test]
fn tombstone_across_flush() {
    let mut tree = BlobTree::open();
    tree.insert(&k(b"k"), &k(b"v"), 1);
    assert_eq!(tree.flush_active_memtable().unwrap(), Some(()));
    tree.remove(&k(b"k"), 2);
    assert_eq!(tree.get(&k(b"k")).unwrap(), None);
    assert_eq!(tree.flush_active_memtable().unwrap(), Some(()));
    assert_eq!(tree.get(&k(b"k")).unwrap(), None);
}

#[test]
fn range_mixed() {
    let mut tree = BlobTree::open();
    let big_value = big();
    tree.insert(&k(b"a"), &k(b"x"), 0);
    tree.insert(&k(b"b"), &big_value, 0);
    tree.insert(&k(b"c"), &k(b"y"), 0);
    assert_eq!(tree.flush_active_memtable().unwrap(), Some(()));
    let items = tree.range(Bound::Included(k(b"a")), Bound::Included(k(b"c")));
    assert_eq!(items.len(), 3);
    assert_eq!(items[0], (k(b"a"), k(b"x")));
    assert_eq!(items[1].0, k(b"b"));
    assert_eq!(items[1].1, big_value);
    assert_eq!(items[2], (k(b"c"), k(b"y")));
}

#[test]
fn range_bounds_and_order() {
    let mut tree = BlobTree::open();
    tree.insert(&k(b"a"), &k(b"1"), 0);
    tree.insert(&k(b"b"), &k(b"2"), 0);
    tree.insert(&k(b"c"), &k(b"3"), 0);
    let items = tree.range(Bound::Excluded(k(b"a")), Bound::Excluded(k(b"c")));
    assert_eq!(items, vec![(k(b"b"), k(b"2"))]);
    let all = tree.range(Bound::Unbounded, Bound::Unbounded);
    assert_eq!(
        all,
        vec![(k(b"a"), k(b"1")), (k(b"b"), k(b"2")), (k(b"c"), k(b"3"))]
    );
    let empty = tree.range(Bound::Excluded(k(b"c")), Bound::Unbounded);
    assert_eq!(empty, Vec::<(Vec<u8>, Vec<u8>)>::new());
}

#[test]
fn range_skips_tombstones() {
    let mut tree = BlobTree::open();
    tree.insert(&k(b"a"), &k(b"1"), 0);
    tree.insert(&k(b"b"), &k(b"2"), 0);
    tree.remove(&k(b"b"), 1);
    let all = tree.range(Bound::Unbounded, Bound::Unbounded);
    assert_eq!(all, vec![(k(b"a"), k(b"1"))]);
}

#[test]
fn mvcc_highest_seqno_wins() {
    let mut tree = BlobTree::open();
    tree.insert(&k(b"k"), &k(b"v1"), 1);
    tree.insert(&k(b"k"), &k(b"v2"), 3);
    tree.insert(&k(b"k"), &k(b"v1.5"), 2);
    assert_eq!(tree.get(&k(b"k")).unwrap(), Some(k(b"v2")));
}

#[test]
fn stale_writes_do_not_shadow() {
    let mut tree = BlobTree::open();
    tree.insert(&k(b"k"), &k(b"v"), 5);
    tree.insert(&k(b"k"), &k(b"w"), 3);
    assert_eq!(tree.get(&k(b"k")).unwrap(), Some(k(b"v")));
    tree.remove(&k(b"k"), 4);
    assert_eq!(tree.get(&k(b"k")).unwrap(), Some(k(b"v")));
    tree.remove(&k(b"k"), 6);
    assert_eq!(tree.get(&k(b"k")).unwrap(), None);
    tree.insert(&k(b"k"), &k(b"z"), 7);
    assert_eq!(tree.get(&k(b"k")).unwrap(), Some(k(b"z")));
}

#[test]
fn flush_empty_memtable_is_a_no_op() {
    let mut tree = BlobTree::open();
    assert_eq!(tree.flush_active_memtable().unwrap(), None);
    tree.insert(&k(b"a"), &k(b"1"), 0);
    assert_eq!(tree.flush_active_memtable().unwrap(), Some(()));
    assert_eq!(tree.flush_active_memtable().unwrap(), None);
}

#[test]
fn separation_boundary() {
    let mut tree = BlobTree::open();
    tree.insert(&k(b"at"), &vec![7u8; 4096], 0);
    tree.insert(&k(b"below"), &vec![7u8; 4095], 0);
    tree.insert(&k(b"gone"), &k(b"x"), 0);
    tree.remove(&k(b"gone"), 1);
    assert_eq!(tree.flush_active_memtable().unwrap(), Some(()));
    let seg = tree.index.segments.last().expect("one segment");
    assert_eq!(seg.entries.len(), 4);
    for e in &seg.entries {
        match e.vtype {
            ValueType::Tombstone => {
                assert_eq!(e.key, k(b"gone"));
                assert!(e.raw.is_empty());
            }
            ValueType::Value => match decode(&e.raw).unwrap() {
                EncodedEntry::Inline(b) => {
                    assert!(b.len() < 4096, "large value left inline");
                }
                EncodedEntry::Indirect(h) => {
                    let bytes = tree.blobs.get(&h).expect("registered segment");
                    assert!(bytes.len() >= 4096, "small value separated");
                }
            },
        }
    }
    assert_eq!(tree.get(&k(b"at")).unwrap(), Some(vec![7u8; 4096]));
    assert_eq!(tree.get(&k(b"below")).unwrap(), Some(vec![7u8; 4095]));
}

#[test]
fn external_index_contract() {
    let mut tree = BlobTree::open();
    let big_value = big();
    tree.insert(&k(b"big"), &big_value, 0);
    tree.insert(&k(b"smol"), &k(b"v"), 0);
    // before the flush everything is inline
    assert_eq!(tree.index.external_get(&k(b"big")).unwrap(), None);
    assert_eq!(tree.flush_active_memtable().unwrap(), Some(()));
    // the big value now reads through a handle whose segment is registered
    let handle = tree.index.external_get(&k(b"big")).unwrap().expect("separated");
    // the handle names the value-log segment this flush registered
    assert_eq!(handle.segment_id, tree.blobs.segments.last().unwrap().id);
    assert_eq!(tree.blobs.get(&handle), Some(big_value));
    // the lookup the garbage collector calls answers the same
    assert_eq!(tree.index.get(&k(b"big")).unwrap(), Some(handle));
    // inline, absent and deleted keys expose no handle
    assert_eq!(tree.index.external_get(&k(b"smol")).unwrap(), None);
    assert_eq!(tree.index.external_get(&k(b"nope")).unwrap(), None);
    tree.remove(&k(b"big"), 1);
    assert_eq!(tree.index.external_get(&k(b"big")).unwrap(), None);
}

#[test]
fn flush_transparency_mixed_sizes() {
    let mut tree = BlobTree::open();
    let big_value = big();
    tree.insert(&k(b"large"), &big_value, 1);
    tree.insert(&k(b"small"), &k(b"tiny"), 1);
    let before_large = tree.get(&k(b"large")).unwrap();
    let before_small = tree.get(&k(b"small")).unwrap();
    let before_len = tree.len();
    assert_eq!(tree.flush_active_memtable().unwrap(), Some(()));
    assert_eq!(tree.get(&k(b"large")).unwrap(), before_large);
    assert_eq!(tree.get(&k(b"small")).unwrap(), before_small);
    assert_eq!(tree.len(), before_len);
}

#[test]
fn len_and_iter_count_visible_items() {
    let mut tree = BlobTree::open();
    assert_eq!(tree.len(), 0);
    tree.insert(&k(b"b"), &k(b"2"), 0);
    tree.insert(&k(b"a"), &k(b"1"), 0);
    tree.insert(&k(b"c"), &k(b"3"), 0);
    tree.remove(&k(b"b"), 1);
    assert_eq!(tree.len(), 2);
    let items = tree.iter();
    assert_eq!(items, vec![(k(b"a"), k(b"1")), (k(b"c"), k(b"3"))]);
    // overwriting does not create a second visible item
    tree.insert(&k(b"a"), &k(b"9"), 2);
    assert_eq!(tree.len(), 2);
}

#[test]
fn insert_reports_sizes() {
    let mut tree = BlobTree::open();
    let (entry, table) = tree.insert(&k(b"ab"), &k(b"cd"), 0);
    // key bytes plus the encoded payload: tag, 8-byte length, 2 bytes
    assert_eq!(entry, 2 + 11);
    assert_eq!(table, 13);
    let (entry2, table2) = tree.insert(&k(b"xy"), &k(b"zw"), 0);
    assert_eq!(entry2, 13);
    assert_eq!(table2, 26);
    // a tombstone stores the key with an empty payload
    let (entry3, table3) = tree.remove(&k(b"ab"), 1);
    assert_eq!(entry3, 2);
    assert_eq!(table3, 28);
}

#[test]
fn trait_api_matches_inherent() {
    let mut tree = BlobTree::open();
    AbstractTree::insert(&mut tree, &k(b"a"), &k(b"1"), 0);
    AbstractTree::remove(&mut tree, &k(b"b"), 0);
    assert_eq!(AbstractTree::get(&tree, &k(b"a")).unwrap(), Some(k(b"1")));
    assert_eq!(AbstractTree::len(&tree), 1);
    let items = AbstractTree::range(&tree, Bound::Unbounded, Bound::Unbounded);
    assert_eq!(items, AbstractTree::iter(&tree));
}

#[test]
fn separated_values_survive_later_flushes() {
    let mut tree = BlobTree::open();
    let big_a = b"abcdefgh".repeat(1000);
    let big_b = b"ijklmnop".repeat(2000);
    tree.insert(&k(b"a"), &big_a, 1);
    assert_eq!(tree.flush_active_memtable().unwrap(), Some(()));
    tree.insert(&k(b"b"), &big_b, 2);
    assert_eq!(tree.flush_active_memtable().unwrap(), Some(()));
    // two value-log segments are registered, one per flush
    assert_eq!(tree.blobs.segments.len(), 2);
    assert_eq!(tree.get(&k(b"a")).unwrap(), Some(big_a));
    assert_eq!(tree.get(&k(b"b")).unwrap(), Some(big_b));
}

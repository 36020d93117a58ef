use wdis::key::ValueType;
use wdis::log::StatusCode;
use wdis::memtable::MemTable;

#[test]
fn test_memtable_basic() {
    let mut memtable = MemTable::new(4 << 20).unwrap();
    assert_eq!(memtable.len(), 0);
    // Test add and get
    memtable.add(1, ValueType::TypeValue, b"key1", b"value1").unwrap();
    assert_eq!(memtable.len(), 1);
    assert_eq!(memtable.get(b"key1", 1), Some(b"value1".to_vec()));

    // Test non-existent key
    assert_eq!(memtable.get(b"key2", 1), None);
}

#[test]
fn test_memtable_allocated() {
    let mut memtable = MemTable::new(4 << 20).unwrap();
    let initial = memtable.allocated();

    memtable.add(1, ValueType::TypeValue, b"key1", b"value1").unwrap();
    assert!(memtable.allocated() > initial);
}

#[test]
fn many_distinct_adds_are_all_kept() {
    let mut memtable = MemTable::new(4 << 20).unwrap();
    for i in 0..10u64 {
        for j in 0..100u64 {
            let key = format!("key_{}_{}", i, j);
            let value = format!("value_{}_{}", i, j);
            memtable.add(i * 100 + j, ValueType::TypeValue, key.as_bytes(), value.as_bytes()).unwrap();
        }
    }
    assert_eq!(memtable.len(), 1000);
    assert_eq!(memtable.get(b"key_5_50", 550), Some(b"value_5_50".to_vec()));
    assert_eq!(memtable.get(b"key_9_99", 999), Some(b"value_9_99".to_vec()));
    assert_eq!(memtable.get(b"key_9_99", 998), None);
}

#[test]
fn duplicate_pair_is_refused() {
    let mut memtable = MemTable::new(1 << 20).unwrap();
    memtable.add(7, ValueType::TypeValue, b"k", b"first").unwrap();
    assert_eq!(memtable.add(7, ValueType::TypeValue, b"k", b"second"), Err(StatusCode::AlreadyExists));
    assert_eq!(memtable.get(b"k", 7), Some(b"first".to_vec()));
    assert_eq!(memtable.len(), 1);
}

#[test]
fn deletion_is_not_found_by_get() {
    let mut memtable = MemTable::new(1 << 20).unwrap();
    memtable.add(3, ValueType::TypeDeletion, b"k", b"").unwrap();
    assert_eq!(memtable.get(b"k", 3), None);
    assert_eq!(memtable.len(), 1);
    memtable.add(4, ValueType::TypeValue, b"k", b"").unwrap();
    assert_eq!(memtable.get(b"k", 4), Some(Vec::new()));
}

#[test]
fn out_of_range_sequence_is_invalid() {
    let mut memtable = MemTable::new(1 << 20).unwrap();
    assert_eq!(memtable.add(1 << 56, ValueType::TypeValue, b"k", b"v"), Err(StatusCode::InvalidInput));
    assert_eq!(memtable.len(), 0);
    assert_eq!(memtable.get(b"k", 1 << 56), None);
}

#[test]
fn full_arena_is_resource_exhausted() {
    match MemTable::new(8192) {
        Err(e) => assert_eq!(e, StatusCode::ResourceExhausted),
        Ok(mut memtable) => {
            let value = vec![1u8; 512];
            let mut failure = None;
            for i in 0..1000u64 {
                if let Err(e) = memtable.add(i, ValueType::TypeValue, b"key", &value) {
                    failure = Some(e);
                    break;
                }
            }
            assert_eq!(failure, Some(StatusCode::ResourceExhausted));
        }
    }
}

#[test]
fn duplicate_pair_of_other_type_is_refused() {
    let mut memtable = MemTable::new(1 << 20).unwrap();
    memtable.add(7, ValueType::TypeDeletion, b"k", b"").unwrap();
    assert_eq!(memtable.add(7, ValueType::TypeValue, b"k", b"v"), Err(StatusCode::AlreadyExists));
    assert_eq!(memtable.get(b"k", 7), None);
    assert_eq!(memtable.len(), 1);
    memtable.add(8, ValueType::TypeValue, b"k", b"v").unwrap();
    assert_eq!(memtable.add(8, ValueType::TypeDeletion, b"k", b""), Err(StatusCode::AlreadyExists));
    assert_eq!(memtable.get(b"k", 8), Some(b"v".to_vec()));
}

use mini_lsm::key::{KeyVec, TS_DEFAULT};
use mini_lsm::mem_table::{KeyBound, MemTable};

fn b(v: &[u8]) -> Vec<u8> {
    v.to_vec()
}

fn kb(v: &[u8]) -> KeyVec {
    KeyVec::from_vec_with_ts(v.to_vec(), TS_DEFAULT)
}

#[test]
fn test_memtable_get() {
    let mut memtable = MemTable::create(0);
    memtable.for_testing_put_slice(&b(b"key1"), &b(b"value1")).unwrap();
    memtable.for_testing_put_slice(&b(b"key2"), &b(b"value2")).unwrap();
    memtable.for_testing_put_slice(&b(b"key3"), &b(b"value3")).unwrap();
    assert_eq!(&memtable.for_testing_get_slice(&b(b"key1")).unwrap()[..], b"value1");
    assert_eq!(&memtable.for_testing_get_slice(&b(b"key2")).unwrap()[..], b"value2");
    assert_eq!(&memtable.for_testing_get_slice(&b(b"key3")).unwrap()[..], b"value3");
}

#[test]
fn test_memtable_overwrite() {
    let mut memtable = MemTable::create(0);
    memtable.for_testing_put_slice(&b(b"key1"), &b(b"value1")).unwrap();
    memtable.for_testing_put_slice(&b(b"key2"), &b(b"value2")).unwrap();
    memtable.for_testing_put_slice(&b(b"key3"), &b(b"value3")).unwrap();
    memtable.for_testing_put_slice(&b(b"key1"), &b(b"value11")).unwrap();
    memtable.for_testing_put_slice(&b(b"key2"), &b(b"value22")).unwrap();
    memtable.for_testing_put_slice(&b(b"key3"), &b(b"value33")).unwrap();
    assert_eq!(&memtable.for_testing_get_slice(&b(b"key1")).unwrap()[..], b"value11");
    assert_eq!(&memtable.for_testing_get_slice(&b(b"key2")).unwrap()[..], b"value22");
    assert_eq!(&memtable.for_testing_get_slice(&b(b"key3")).unwrap()[..], b"value33");
}

#[test]
fn test_memtable_iter() {
    let mut memtable = MemTable::create(0);
    memtable.for_testing_put_slice(&b(b"key1"), &b(b"value1")).unwrap();
    memtable.for_testing_put_slice(&b(b"key2"), &b(b"value2")).unwrap();
    memtable.for_testing_put_slice(&b(b"key3"), &b(b"value3")).unwrap();

    {
        let mut iter = memtable.for_testing_scan_slice(&KeyBound::Unbounded, &KeyBound::Unbounded);
        assert_eq!(iter.key().for_testing_key_ref().as_slice(), b"key1");
        assert_eq!(iter.value().as_slice(), b"value1");
        assert!(iter.is_valid());
        iter.next().unwrap();
        assert_eq!(iter.key().for_testing_key_ref().as_slice(), b"key2");
        assert_eq!(iter.value().as_slice(), b"value2");
        assert!(iter.is_valid());
        iter.next().unwrap();
        assert_eq!(iter.key().for_testing_key_ref().as_slice(), b"key3");
        assert_eq!(iter.value().as_slice(), b"value3");
        assert!(iter.is_valid());
        iter.next().unwrap();
        assert!(!iter.is_valid());
    }

    {
        let mut iter = memtable.for_testing_scan_slice(
            &KeyBound::Included(kb(b"key1")),
            &KeyBound::Included(kb(b"key2")),
        );
        assert_eq!(iter.key().for_testing_key_ref().as_slice(), b"key1");
        assert_eq!(iter.value().as_slice(), b"value1");
        assert!(iter.is_valid());
        iter.next().unwrap();
        assert_eq!(iter.key().for_testing_key_ref().as_slice(), b"key2");
        assert_eq!(iter.value().as_slice(), b"value2");
        assert!(iter.is_valid());
        iter.next().unwrap();
        assert!(!iter.is_valid());
    }

    {
        let iter = memtable.for_testing_scan_slice(
            &KeyBound::Excluded(kb(b"key1")),
            &KeyBound::Excluded(kb(b"key3")),
        );
        assert_eq!(iter.key().for_testing_key_ref().as_slice(), b"key2");
        assert_eq!(iter.value().as_slice(), b"value2");
        assert!(iter.is_valid());
        let mut iter = iter;
        iter.next().unwrap();
        assert!(!iter.is_valid());
    }
}

#[test]
fn test_empty_memtable_iter() {
    let memtable = MemTable::create(0);
    {
        let iter = memtable.for_testing_scan_slice(
            &KeyBound::Excluded(kb(b"key1")),
            &KeyBound::Excluded(kb(b"key3")),
        );
        assert!(!iter.is_valid());
    }
    {
        let iter = memtable.for_testing_scan_slice(
            &KeyBound::Included(kb(b"key1")),
            &KeyBound::Included(kb(b"key2")),
        );
        assert!(!iter.is_valid());
    }
    {
        let iter = memtable.for_testing_scan_slice(&KeyBound::Unbounded, &KeyBound::Unbounded);
        assert!(!iter.is_valid());
    }
}

#[test]
fn test_merge_1() {}

use lru_collections::maps::dualindexmap::{clonetrait, compileerr, copytrait, rcversion};

#[test]
fn test_copy_version() {
    let mut dim = copytrait::DualIndexMap::<u8, u16>::new(10);
    dim.put(100, 1000);
    assert_eq!(dim.get_by_key(&100), Some(&1000));
    assert_eq!(dim.get_by_val(&1000), Some(&100));
    assert_eq!(dim.get_by_key(&101), None);
}

#[test]
fn test_clone_version() {
    let mut dim = clonetrait::DualIndexMap::<u8, u16>::new(10);
    dim.put(100, 1000);
    assert_eq!(dim.get_by_key(&100), Some(&1000));
    assert_eq!(dim.get_by_val(&1000), Some(&100));
    assert_eq!(dim.get_by_key(&101), None);
}

#[test]
fn test_rc_version() {
    let mut dim = rcversion::DualIndexMap::<u8, u16>::new(10);
    dim.put(100, 1000);
    assert_eq!(dim.get_by_key(&100), Some(&1000));
    assert_eq!(dim.get_by_val(&1000), Some(&100));
    assert_eq!(dim.get_by_key(&101), None);
}

#[test]
fn one_sided_version_records_keys_only() {
    let mut dim = compileerr::DualIndexMap::<u8, u16>::new(10);
    assert_eq!(dim.get_by_key(&100), None);
    dim.put(100, 1000);
    assert_eq!(dim.get_by_key(&100), Some(&1000));
    assert_eq!(dim.get_by_val(&1000), None);
    assert_eq!(dim.get_by_key(&101), None);
    dim.put(100, 1001);
    assert_eq!(dim.get_by_key(&100), Some(&1001));
}

#[test]
fn a_second_put_replaces_in_the_table_it_is_the_key_of() {
    let mut dim = copytrait::DualIndexMap::<u8, u16>::new(0);
    dim.put(1, 10);
    dim.put(1, 11);
    assert_eq!(dim.get_by_key(&1), Some(&11));
    assert_eq!(dim.get_by_val(&11), Some(&1));
    assert_eq!(dim.get_by_val(&10), Some(&1));
    dim.put(2, 11);
    assert_eq!(dim.get_by_val(&11), Some(&2));
    assert_eq!(dim.get_by_key(&1), Some(&11));
    assert_eq!(dim.get_by_key(&2), Some(&11));
}

#[test]
fn clone_version_with_strings() {
    let mut dim = clonetrait::DualIndexMap::<String, String>::new(2);
    dim.put("k".to_string(), "v".to_string());
    assert_eq!(dim.get_by_key(&"k".to_string()), Some(&"v".to_string()));
    assert_eq!(dim.get_by_val(&"v".to_string()), Some(&"k".to_string()));
    assert_eq!(dim.get_by_val(&"k".to_string()), None);
}

#[test]
fn rc_version_with_strings() {
    let mut dim = rcversion::DualIndexMap::<String, String>::new(2);
    assert_eq!(dim.get_by_key(&"k".to_string()), None);
    dim.put("k".to_string(), "v".to_string());
    dim.put("l".to_string(), "w".to_string());
    assert_eq!(dim.get_by_key(&"k".to_string()), Some(&"v".to_string()));
    assert_eq!(dim.get_by_val(&"v".to_string()), Some(&"k".to_string()));
    assert_eq!(dim.get_by_key(&"l".to_string()), Some(&"w".to_string()));
    assert_eq!(dim.get_by_val(&"w".to_string()), Some(&"l".to_string()));
    assert_eq!(dim.get_by_val(&"k".to_string()), None);
    dim.put("k".to_string(), "w".to_string());
    assert_eq!(dim.get_by_key(&"k".to_string()), Some(&"w".to_string()));
    assert_eq!(dim.get_by_val(&"w".to_string()), Some(&"k".to_string()));
}

use arroyo_state::operation::{copy_log, DataOperation, DataTuple};
use arroyo_state::replay::{net_push, same_identity};
use arroyo_state::tables::byte_map::ByteMap;
use arroyo_state::tables::global_keyed_map::GlobalKeyedStateCache;
use arroyo_state::tables::key_time_multi_map::KeyTimeMultiMapCache;
use arroyo_state::tables::keyed_map::KeyedStateCache;
use arroyo_state::tables::time_key_map::TimeKeyMapCache;
use arroyo_state::bytes::{copy_bytes, same_bytes};

fn b(s: &str) -> Vec<u8> {
    s.as_bytes().to_vec()
}

fn summary(log: &[DataTuple]) -> Vec<(u64, Vec<u8>, Vec<u8>, DataOperation)> {
    log.iter().map(|t| (t.timestamp, t.key.clone(), t.value.clone(), t.operation)).collect()
}

#[test]
fn byte_strings_compare_by_content() {
    assert!(same_bytes(&b("abc"), &b("abc")));
    assert!(same_bytes(&b(""), &b("")));
    assert!(!same_bytes(&b("abc"), &b("abd")));
    assert!(!same_bytes(&b("abc"), &b("ab")));
    assert_eq!(copy_bytes(&b("abc")), b("abc"));
}

#[test]
fn byte_map_binds_each_key_once() {
    let mut map = ByteMap::new();
    assert_eq!(map.len(), 0);
    map.insert(b("a"), b("1"));
    map.insert(b("b"), b("2"));
    map.insert(b("a"), b("3"));
    assert_eq!(map.len(), 2);
    assert_eq!(map.get(&b("a")), Some(&b("3")));
    assert_eq!(map.get(&b("c")), None);
    assert_eq!(map.values(), vec![&b("3"), &b("2")]);
    assert_eq!(map.remove(&b("a")), Some(b("3")));
    assert_eq!(map.remove(&b("a")), None);
    assert_eq!(map.get(&b("a")), None);
    assert_eq!(map.len(), 1);
    let entries = map.into_entries();
    assert_eq!((entries[0].key.clone(), entries[0].value.clone()), (b("b"), b("2")));
    let again = ByteMap::from_entries(entries);
    assert_eq!(again.get(&b("b")), Some(&b("2")));
}

#[test]
fn tuples_and_logs_copy_faithfully() {
    let insert = DataTuple::insert(7, b("k"), b("v"));
    assert_eq!(insert.operation, DataOperation::Insert);
    let delete = DataTuple::delete_key(8, b("k"));
    assert_eq!(summary(&[delete.duplicate()]), vec![(8, b("k"), vec![], DataOperation::DeleteKey)]);
    let log = vec![insert, delete];
    assert_eq!(summary(&copy_log(&log)), summary(&log));
    assert!(same_identity(&log[0], &log[1], false));
    assert!(!same_identity(&log[0], &log[1], true));
}

#[test]
fn net_push_displaces_earlier_changes_to_the_same_entry() {
    let mut log = Vec::new();
    net_push(&mut log, DataTuple::insert(1, b("a"), b("1")), false);
    net_push(&mut log, DataTuple::insert(2, b("b"), b("2")), false);
    net_push(&mut log, DataTuple::insert(3, b("a"), b("3")), false);
    assert_eq!(
        summary(&log),
        vec![
            (2, b("b"), b("2"), DataOperation::Insert),
            (3, b("a"), b("3"), DataOperation::Insert),
        ]
    );
    net_push(&mut log, DataTuple::insert(2, b("a"), b("4")), true);
    assert_eq!(log.len(), 3);
    net_push(&mut log, DataTuple::delete_key(3, b("a")), true);
    assert_eq!(
        summary(&log),
        vec![
            (2, b("b"), b("2"), DataOperation::Insert),
            (2, b("a"), b("4"), DataOperation::Insert),
            (3, b("a"), vec![], DataOperation::DeleteKey),
        ]
    );
}

#[test]
fn keyed_cache_records_one_change_per_key() {
    let mut cache = KeyedStateCache::new();
    cache.insert(1, b("a"), b("1"));
    cache.insert(2, b("a"), b("2"));
    cache.insert(3, b("b"), b("3"));
    cache.remove(&b("b"));
    cache.remove(&b("never"));
    assert_eq!(cache.get(&b("a")), Some(&b("2")));
    assert_eq!(cache.get(&b("b")), None);
    let delta = cache.take_delta();
    assert_eq!(
        summary(&delta),
        vec![
            (2, b("a"), b("2"), DataOperation::Insert),
            (0, b("b"), vec![], DataOperation::DeleteKey),
            (0, b("never"), vec![], DataOperation::DeleteKey),
        ]
    );
    assert!(cache.take_delta().is_empty());
    assert_eq!(cache.get(&b("a")), Some(&b("2")));
}

#[test]
fn global_cache_records_changes_without_event_time() {
    let mut cache = GlobalKeyedStateCache::new();
    cache.insert(b("a"), b("1"));
    cache.insert(b("b"), b("2"));
    cache.insert(b("a"), b("3"));
    assert_eq!(cache.get_all(), vec![&b("3"), &b("2")]);
    assert_eq!(
        summary(&cache.take_delta()),
        vec![
            (0, b("b"), b("2"), DataOperation::Insert),
            (0, b("a"), b("3"), DataOperation::Insert),
        ]
    );
}

#[test]
fn time_key_cache_records_one_change_per_time_and_key() {
    let mut cache = TimeKeyMapCache::new();
    cache.insert(10, b("a"), b("1"));
    cache.insert(10, b("a"), b("2"));
    cache.insert(20, b("a"), b("3"));
    assert_eq!(cache.get(10, &b("a")), Some(&b("2")));
    assert_eq!(cache.get_all_for_time(20), vec![(&b("a"), &b("3"))]);
    cache.evict_before(15);
    // eviction is no change to flush
    assert_eq!(
        summary(&cache.take_delta()),
        vec![
            (10, b("a"), b("2"), DataOperation::Insert),
            (20, b("a"), b("3"), DataOperation::Insert),
        ]
    );
    assert_eq!(cache.get_all(), vec![(20, &b("a"), &b("3"))]);
}

#[test]
fn multi_map_cache_records_every_insert() {
    let mut cache = KeyTimeMultiMapCache::new();
    cache.insert(20, b("a"), b("2"));
    cache.insert(10, b("a"), b("1"));
    cache.insert(10, b("a"), b("1"));
    assert_eq!(cache.get_time_range(&b("a"), 10, 10), vec![&b("1"), &b("1")]);
    assert_eq!(cache.get_time_range(&b("a"), 10, 20), vec![&b("1"), &b("1"), &b("2")]);
    assert_eq!(
        summary(&cache.take_delta()),
        vec![
            (20, b("a"), b("2"), DataOperation::Insert),
            (10, b("a"), b("1"), DataOperation::Insert),
            (10, b("a"), b("1"), DataOperation::Insert),
        ]
    );
}

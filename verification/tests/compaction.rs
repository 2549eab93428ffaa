use arroyo_state::memory::MemoryBackend;
use arroyo_state::metadata::{CheckpointBarrier, CheckpointMetadata, CompactionResult, TaskInfo};
use arroyo_state::replay::compact_log;
use arroyo_state::{BackingStore, DataOperation, DataTuple, StateStore, TableType, TypeTag};

fn num(n: i64) -> Vec<u8> {
    n.to_be_bytes().to_vec()
}

fn barrier(epoch: u32) -> CheckpointBarrier {
    CheckpointBarrier { epoch, min_epoch: 0, timestamp: 0, then_stop: false }
}

fn metadata(epoch: u32) -> CheckpointMetadata {
    CheckpointMetadata {
        job_id: "job".to_string(),
        epoch,
        min_epoch: 0,
        start_time: 0,
        finish_time: 0,
        operator_ids: vec!["op".to_string()],
    }
}

fn types() -> TypeTag {
    TypeTag { key: 1, value: 1 }
}

fn summary(log: &[DataTuple]) -> Vec<(u64, Vec<u8>, Vec<u8>, DataOperation)> {
    log.iter().map(|t| (t.timestamp, t.key.clone(), t.value.clone(), t.operation)).collect()
}

#[test]
fn net_log_keeps_the_last_change_of_every_key() {
    let log = vec![
        DataTuple::insert(1, num(1), num(10)),
        DataTuple::insert(2, num(2), num(20)),
        DataTuple::insert(3, num(1), num(11)),
        DataTuple::delete_key(4, num(2)),
        DataTuple::insert(5, num(3), num(30)),
    ];
    let by_key = compact_log(&log, false);
    assert_eq!(
        summary(&by_key),
        vec![
            (3, num(1), num(11), DataOperation::Insert),
            (4, num(2), vec![], DataOperation::DeleteKey),
            (5, num(3), num(30), DataOperation::Insert),
        ]
    );
    // by time and key nothing coincides, so nothing is displaced
    let by_time = compact_log(&log, true);
    assert_eq!(summary(&by_time), summary(&log));
    assert!(compact_log(&Vec::new(), false).is_empty());
}

#[test]
fn insert_then_delete_compacts_to_absent() {
    let task = TaskInfo::for_test("job", "op");
    let mut ss = StateStore::new(&task, vec![], MemoryBackend::new(&task));

    // checkpoint A inserts X for k
    let mut ks = ss.get_key_state('k', types()).unwrap();
    ks.insert(1, num(1), num(99));
    ks.insert(1, num(2), num(5));
    assert_eq!(ss.checkpoint(barrier(1), None), 1);
    // checkpoint B deletes k
    let mut ks = ss.get_key_state('k', types()).unwrap();
    ks.remove(&num(1));
    assert_eq!(ss.checkpoint(barrier(2), None), 2);

    let before = ss.backend().live_handles('k');
    assert_eq!(before.len(), 2);
    let result = ss.backend_mut().compact_table('k', 0, 2).unwrap();
    assert_eq!(result.epoch, 2);
    assert_eq!(result.backend_data_to_drop, before);
    assert_eq!(result.backend_data_to_load.len(), 1);
    // compaction alone changes nothing that is live
    assert_eq!(ss.backend().live_handles('k'), before);

    let loaded = result.backend_data_to_load.clone();
    let again = CompactionResult {
        epoch: result.epoch,
        backend_data_to_drop: result.backend_data_to_drop.clone(),
        backend_data_to_load: result.backend_data_to_load.clone(),
    };
    ss.load_compacted(result);
    assert_eq!(ss.backend().live_handles('k'), loaded);
    // the delete survives as a tombstone; the other key keeps its value
    let live = ss.backend().get_data_tuples('k');
    assert_eq!(
        summary(&live),
        vec![
            (1, num(2), num(5), DataOperation::Insert),
            (0, num(1), vec![], DataOperation::DeleteKey),
        ]
    );
    // a result is applied exactly once
    ss.load_compacted(again);
    assert_eq!(ss.backend().live_handles('k'), loaded);

    let backend = MemoryBackend::from_checkpoint(&task, &metadata(2), ss.backend());
    let mut restored = StateStore::from_checkpoint(&task, metadata(2), vec![], backend);
    let ks = restored.get_key_state('k', types()).unwrap();
    assert_eq!(ks.get(&num(1)), None);
    assert_eq!(ks.get(&num(2)), Some(&num(5)));
}

#[test]
fn delete_in_a_compacted_run_hides_an_older_insert() {
    let task = TaskInfo::for_test("job", "op");
    let mut ss = StateStore::new(&task, vec![], MemoryBackend::new(&task));
    let mut ks = ss.get_key_state('k', types()).unwrap();
    ks.insert(1, num(1), num(1));
    ss.checkpoint(barrier(1), None);
    let mut ks = ss.get_key_state('k', types()).unwrap();
    ks.insert(2, num(1), num(2));
    ss.checkpoint(barrier(2), None);
    let mut ks = ss.get_key_state('k', types()).unwrap();
    ks.remove(&num(1));
    ss.checkpoint(barrier(3), None);

    // only epochs 2 and 3 are merged; epoch 1 stays as it is
    let result = ss.backend_mut().compact_table('k', 1, 3).unwrap();
    assert_eq!(result.backend_data_to_drop.len(), 2);
    ss.load_compacted(result);
    assert_eq!(ss.backend().live_handles('k').len(), 2);

    let backend = MemoryBackend::from_checkpoint(&task, &metadata(3), ss.backend());
    let mut restored = StateStore::from_checkpoint(&task, metadata(3), vec![], backend);
    let ks = restored.get_key_state('k', types()).unwrap();
    assert_eq!(ks.get(&num(1)), None);
}

#[test]
fn compaction_needs_two_segments() {
    let task = TaskInfo::for_test("job", "op");
    let mut ss = StateStore::new(&task, vec![], MemoryBackend::new(&task));
    assert!(ss.backend_mut().compact_table('k', 0, 9).is_none());
    let mut ks = ss.get_key_state('k', types()).unwrap();
    ks.insert(1, num(1), num(1));
    ss.checkpoint(barrier(1), None);
    assert!(ss.backend_mut().compact_table('k', 0, 9).is_none());
    let mut ks = ss.get_key_state('k', types()).unwrap();
    ks.insert(1, num(1), num(2));
    ss.checkpoint(barrier(2), None);
    assert!(ss.backend_mut().compact_table('k', 1, 9).is_none());
    assert!(ss.backend_mut().compact_table('k', 0, 1).is_none());
    assert!(ss.backend_mut().compact_table('x', 0, 9).is_none());
    assert!(ss.backend_mut().compact_table('k', 0, 2).is_some());
}

#[test]
fn multi_map_compaction_keeps_every_insert() {
    let task = TaskInfo::for_test("job", "op");
    let mut ss = StateStore::new(&task, vec![], MemoryBackend::new(&task));
    let mut ks = ss.get_key_time_multi_map('m', types()).unwrap();
    ks.insert(10, num(1), num(1));
    ks.insert(10, num(1), num(1));
    ss.checkpoint(barrier(1), None);
    let mut ks = ss.get_key_time_multi_map('m', types()).unwrap();
    ks.insert(5, num(1), num(0));
    ss.checkpoint(barrier(2), None);
    let result = ss.backend_mut().compact_table('m', 0, 2).unwrap();
    ss.load_compacted(result);
    assert_eq!(ss.backend().live_handles('m').len(), 1);
    assert_eq!(ss.backend().get_data_tuples('m').len(), 3);
}

#[test]
fn backend_reads_back_what_a_checkpoint_made_durable() {
    let task = TaskInfo::for_test("job", "op");
    let mut backend = MemoryBackend::new(&task);
    assert_eq!(MemoryBackend::name(), "memory");
    assert_eq!(backend.task_info().operator_id, "op");
    backend.write_data_tuple('t', TableType::TimeKeyMap, 7, &num(1), &num(10));
    backend.write_key_value('g', &num(2), &num(20));
    backend.write_key_value('g', &num(3), &num(30));
    backend.delete_key_value('g', &num(2));
    backend.delete_data_tuple('t', TableType::TimeKeyMap, 8, &num(9));
    // staged changes are not read back
    assert!(backend.get_data_tuples('t').is_empty());
    assert_eq!(backend.checkpoint(barrier(4), None), 4);
    assert_eq!(
        summary(&backend.get_data_tuples('t')),
        vec![
            (7, num(1), num(10), DataOperation::Insert),
            (8, num(9), vec![], DataOperation::DeleteKey),
        ]
    );
    let pairs = backend.get_global_key_values('g');
    assert_eq!(pairs.len(), 1);
    assert_eq!((pairs[0].key.clone(), pairs[0].value.clone()), (num(3), num(30)));
    assert!(backend.get_key_values('z').is_empty());
}

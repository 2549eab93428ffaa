use arroyo_state::memory::MemoryBackend;
use arroyo_state::metadata::{CheckpointBarrier, CheckpointMetadata, TaskInfo};
use arroyo_state::{
    global_table, timestamp_table, StateError, StateStore, TableDeleteBehavior, TableDescriptor,
    TableWriteBehavior, TypeTag,
};

const SECOND: u64 = 1_000_000;

fn default_tables() -> Vec<TableDescriptor> {
    vec![
        global_table("g", "test"),
        timestamp_table(
            "t",
            "time",
            TableDeleteBehavior::NoReadsBeforeWatermark,
            TableWriteBehavior::NoWritesBeforeWatermark,
            0,
        ),
    ]
}

fn key(s: &str) -> Vec<u8> {
    s.as_bytes().to_vec()
}

fn num(n: i64) -> Vec<u8> {
    n.to_be_bytes().to_vec()
}

fn text_to_i64() -> TypeTag {
    TypeTag { key: 1, value: 2 }
}

fn usize_to_i32() -> TypeTag {
    TypeTag { key: 3, value: 4 }
}

fn memory_for_test() -> (StateStore<MemoryBackend>, TaskInfo) {
    let task = TaskInfo::for_test("test_job", "test_op");
    let store = StateStore::new(&task, default_tables(), MemoryBackend::new(&task));
    (store, task)
}

fn do_checkpoint(ss: &mut StateStore<MemoryBackend>, job_id: &str, epoch: u32) -> CheckpointMetadata {
    let flushed = ss.checkpoint(
        CheckpointBarrier { epoch, min_epoch: 0, timestamp: 0, then_stop: false },
        Some(0),
    );
    assert_eq!(flushed, epoch);
    CheckpointMetadata {
        job_id: job_id.to_string(),
        epoch,
        min_epoch: 1,
        start_time: 0,
        finish_time: 0,
        operator_ids: vec!["test_op".to_string()],
    }
}

fn restored_from(
    ss: &StateStore<MemoryBackend>,
    task: &TaskInfo,
    metadata: CheckpointMetadata,
) -> StateStore<MemoryBackend> {
    let backend = MemoryBackend::from_checkpoint(task, &metadata, ss.backend());
    StateStore::from_checkpoint(task, metadata, default_tables(), backend)
}

#[test]
fn test_global() {
    let (mut ss, _task) = memory_for_test();

    let mut gs = ss.get_global_keyed_state('g', text_to_i64()).unwrap();
    gs.insert(key("k1"), num(1));
    assert_eq!(*gs.get(&key("k1")).unwrap(), num(1));

    let mut gs = ss.get_global_keyed_state('g', text_to_i64()).unwrap();
    assert_eq!(*gs.get(&key("k1")).unwrap(), num(1));

    gs.insert(key("k2"), num(2));

    let mut entries = gs.get_all();
    entries.sort();
    assert_eq!(entries, vec![&num(1), &num(2)]);
}

#[test]
fn global_fan_in_does_not_depend_on_insertion_order() {
    let (mut ss, _task) = memory_for_test();
    let mut gs = ss.get_global_keyed_state('g', text_to_i64()).unwrap();
    gs.insert(key("k2"), num(2));
    let mut gs = ss.get_global_keyed_state('g', text_to_i64()).unwrap();
    gs.insert(key("k1"), num(1));
    let mut entries = gs.get_all();
    entries.sort();
    assert_eq!(entries, vec![&num(1), &num(2)]);
    assert_eq!(gs.get(&key("k3")), None);
}

#[test]
fn test_key_time_multi_map() {
    let (mut ss, task) = memory_for_test();
    let mut ks = ss.get_key_time_multi_map('t', text_to_i64()).unwrap();

    let k1 = key("k1");
    let t1 = 1_700_000_000 * SECOND;
    let t2 = t1 + SECOND;
    let t3 = t1 + 2 * SECOND;
    let t4 = t1 + 3 * SECOND;

    ks.insert(t1, k1.clone(), num(1));
    ks.insert(t1, k1.clone(), num(2));
    ks.insert(t2, k1.clone(), num(3));
    ks.insert(t3, k1.clone(), num(4));
    ks.insert(t4, k1.clone(), num(5));

    assert_eq!(ks.get_time_range(&k1, t1, t1 + 1), vec![&num(1), &num(2)]);
    assert_eq!(
        ks.get_time_range(&k1, t1, t4),
        vec![&num(1), &num(2), &num(3), &num(4), &num(5)]
    );

    do_checkpoint(&mut ss, &task.job_id, 1);

    let ks = ss.get_key_time_multi_map('t', text_to_i64()).unwrap();
    assert_eq!(ks.get_time_range(&k1, t1, t1 + 1), vec![&num(1), &num(2)]);
    assert_eq!(
        ks.get_time_range(&k1, t1, t4),
        vec![&num(1), &num(2), &num(3), &num(4), &num(5)]
    );
}

#[test]
fn multi_map_orders_by_time_then_arrival() {
    let (mut ss, _task) = memory_for_test();
    let mut ks = ss.get_key_time_multi_map('m', text_to_i64()).unwrap();
    let k1 = key("k1");
    ks.insert(30, k1.clone(), num(5));
    ks.insert(10, k1.clone(), num(1));
    ks.insert(20, key("other"), num(9));
    ks.insert(20, k1.clone(), num(3));
    ks.insert(10, k1.clone(), num(2));
    ks.insert(20, k1.clone(), num(4));
    assert_eq!(
        ks.get_time_range(&k1, 0, u64::MAX),
        vec![&num(1), &num(2), &num(3), &num(4), &num(5)]
    );
    assert_eq!(ks.get_time_range(&k1, 10, 20), vec![&num(1), &num(2), &num(3), &num(4)]);
    assert_eq!(ks.get_time_range(&k1, 11, 19), Vec::<&Vec<u8>>::new());
    assert_eq!(ks.get_time_range(&k1, 20, 10), Vec::<&Vec<u8>>::new());
    assert_eq!(ks.get_time_range(&key("other"), 20, 20), vec![&num(9)]);
    assert_eq!(ks.get_time_range(&key("absent"), 0, u64::MAX), Vec::<&Vec<u8>>::new());
}

#[test]
fn multi_map_restore_returns_every_insert() {
    let (mut ss, task) = memory_for_test();
    let mut ks = ss.get_key_time_multi_map('t', text_to_i64()).unwrap();
    let k1 = key("k1");
    ks.insert(20, k1.clone(), num(3));
    ks.insert(10, k1.clone(), num(1));
    ks.insert(10, k1.clone(), num(1));
    let first = do_checkpoint(&mut ss, &task.job_id, 1);
    let mut ks = ss.get_key_time_multi_map('t', text_to_i64()).unwrap();
    ks.insert(15, k1.clone(), num(2));
    do_checkpoint(&mut ss, &task.job_id, 2);

    let second = CheckpointMetadata { epoch: 2, ..restored_metadata(&first) };
    let mut restored = restored_from(&ss, &task, second);
    let ks = restored.get_key_time_multi_map('t', text_to_i64()).unwrap();
    assert_eq!(
        ks.get_time_range(&k1, 0, u64::MAX),
        vec![&num(1), &num(1), &num(2), &num(3)]
    );

    let mut older = restored_from(&ss, &task, first);
    let ks = older.get_key_time_multi_map('t', text_to_i64()).unwrap();
    assert_eq!(ks.get_time_range(&k1, 0, u64::MAX), vec![&num(1), &num(1), &num(3)]);
}

fn restored_metadata(m: &CheckpointMetadata) -> CheckpointMetadata {
    CheckpointMetadata {
        job_id: m.job_id.clone(),
        epoch: m.epoch,
        min_epoch: m.min_epoch,
        start_time: m.start_time,
        finish_time: m.finish_time,
        operator_ids: m.operator_ids.clone(),
    }
}

#[test]
fn test_time_key_map() {
    let (mut ss, task) = memory_for_test();

    let mut ks = ss.get_time_key_map('t', usize_to_i32(), None).unwrap();

    let t1 = 1_700_000_000 * SECOND;
    let t2 = t1 + SECOND;
    let t3 = t1 + 2 * SECOND;
    let t4 = t1 + 3 * SECOND;

    ks.insert(t1, num(1), num(1));
    ks.insert(t1, num(1), num(2));
    ks.insert(t2, num(1), num(3));
    ks.insert(t3, num(1), num(4));
    ks.insert(t4, num(1), num(5));

    assert_eq!(ks.get_all_for_time(t1), vec![(&num(1), &num(2))]);
    assert_eq!(
        ks.get_all(),
        vec![
            (t1, &num(1), &num(2)),
            (t2, &num(1), &num(3)),
            (t3, &num(1), &num(4)),
            (t4, &num(1), &num(5))
        ]
    );

    do_checkpoint(&mut ss, &task.job_id, 1);

    let ks = ss.get_time_key_map('t', usize_to_i32(), None).unwrap();

    assert_eq!(ks.get_all_for_time(t1), vec![(&num(1), &num(2))]);
    assert_eq!(
        ks.get_all(),
        vec![
            (t1, &num(1), &num(2)),
            (t2, &num(1), &num(3)),
            (t3, &num(1), &num(4)),
            (t4, &num(1), &num(5))
        ]
    );
}

#[test]
fn time_key_map_enumerates_by_time_whatever_the_insertion_order() {
    let (mut ss, _task) = memory_for_test();
    let mut ks = ss.get_time_key_map('t', usize_to_i32(), None).unwrap();
    ks.insert(30, num(1), num(3));
    ks.insert(10, num(1), num(1));
    ks.insert(20, num(1), num(2));
    ks.insert(10, num(2), num(7));
    assert_eq!(ks.get(10, &num(1)), Some(&num(1)));
    assert_eq!(ks.get(10, &num(3)), None);
    assert_eq!(ks.get(11, &num(1)), None);
    let all = ks.get_all();
    let times: Vec<u64> = all.iter().map(|e| e.0).collect();
    assert_eq!(times, vec![10, 10, 20, 30]);
    assert_eq!(ks.get_all_for_time(10), vec![(&num(1), &num(1)), (&num(2), &num(7))]);
    assert_eq!(ks.get_all_for_time(15), Vec::<(&Vec<u8>, &Vec<u8>)>::new());

    ks.evict_before(20);
    assert_eq!(ks.get_all(), vec![(20, &num(1), &num(2)), (30, &num(1), &num(3))]);
    assert_eq!(ks.get(10, &num(1)), None);
    // what is older than the watermark is no longer admitted
    ks.insert(19, num(1), num(9));
    assert_eq!(ks.get(19, &num(1)), None);
    ks.insert(20, num(2), num(8));
    assert_eq!(ks.get(20, &num(2)), Some(&num(8)));
    // an older watermark does not lower the floor
    ks.evict_before(5);
    ks.insert(19, num(1), num(9));
    assert_eq!(ks.get_all().len(), 3);
    ks.evict_before(31);
    assert_eq!(ks.get_all(), Vec::<(u64, &Vec<u8>, &Vec<u8>)>::new());
}

#[test]
fn test_key_state_compaction() {
    let (mut ss, task) = memory_for_test();
    let job_id = task.job_id.clone();

    // insert a key/value
    let mut ks = ss.get_key_state('t', usize_to_i32()).unwrap();
    let t1 = 1_700_000_000 * SECOND;
    ks.insert(t1, num(1), num(1));
    assert_eq!(Some(&num(1)), ks.get(&num(1)));

    // checkpoint 1
    do_checkpoint(&mut ss, &job_id, 1);

    // update key
    let mut ks = ss.get_key_state('t', usize_to_i32()).unwrap();
    ks.insert(t1, num(1), num(2));

    // checkpoint 2
    do_checkpoint(&mut ss, &job_id, 2);

    // compact epoch 1 and 2 and load compacted data
    let result = ss.backend_mut().compact_table('t', 0, 2).unwrap();
    assert_eq!(2, result.backend_data_to_drop.len());
    assert_eq!(1, result.backend_data_to_load.len());
    ss.load_compacted(result);

    // update key again
    let mut ks = ss.get_key_state('t', usize_to_i32()).unwrap();
    ks.insert(t1, num(1), num(3));

    // checkpoint 3
    do_checkpoint(&mut ss, &job_id, 3);

    // delete key
    let mut ks = ss.get_key_state('t', usize_to_i32()).unwrap();
    ks.remove(&num(1));

    // checkpoint 4
    do_checkpoint(&mut ss, &job_id, 4);

    // compact epoch 3 and 4
    let result = ss.backend_mut().compact_table('t', 2, 4).unwrap();
    assert_eq!(2, result.backend_data_to_drop.len());
    assert_eq!(1, result.backend_data_to_load.len());
    ss.load_compacted(result);

    // checkpoint 5 (contains both previous compactions)
    let checkpoint5 = do_checkpoint(&mut ss, &job_id, 5);

    // restore from epoch 5
    let mut restored = restored_from(&ss, &task, checkpoint5);

    // check that the key is gone
    let ks = restored.get_key_state('t', usize_to_i32()).unwrap();
    assert_eq!(None, ks.get(&num(1)));
}

#[test]
fn type_mismatch_fails_fast() {
    let (mut ss, _task) = memory_for_test();
    let mut ks = ss.get_key_state('t', usize_to_i32()).unwrap();
    ks.insert(0, num(1), num(1));

    assert_eq!(
        ss.get_key_state('t', text_to_i64()).err(),
        Some(StateError::TypeMismatch { table: 't' })
    );
    assert_eq!(
        ss.get_key_state('t', TypeTag { key: 3, value: 5 }).err(),
        Some(StateError::TypeMismatch { table: 't' })
    );
    assert_eq!(
        ss.get_time_key_map('t', usize_to_i32(), None).err(),
        Some(StateError::TypeMismatch { table: 't' })
    );
    assert_eq!(
        ss.get_global_keyed_state('t', usize_to_i32()).err(),
        Some(StateError::TypeMismatch { table: 't' })
    );
    assert_eq!(
        ss.get_key_time_multi_map('t', usize_to_i32()).err(),
        Some(StateError::TypeMismatch { table: 't' })
    );

    // the resident table is untouched and still served under its own types
    let ks = ss.get_key_state('t', usize_to_i32()).unwrap();
    assert_eq!(ks.get(&num(1)), Some(&num(1)));
    // another id is free to take any types
    assert!(ss.get_key_state('u', text_to_i64()).is_ok());
}

#[test]
fn restore_of_an_undeclared_time_table_is_refused() {
    let (mut ss, task) = memory_for_test();
    let first = do_checkpoint(&mut ss, &task.job_id, 1);
    let mut restored = restored_from(&ss, &task, first);
    assert_eq!(
        restored.get_time_key_map('x', usize_to_i32(), None).err(),
        Some(StateError::UnknownTable { table: 'x' })
    );
    assert_eq!(
        restored.get_key_time_multi_map('x', usize_to_i32()).err(),
        Some(StateError::UnknownTable { table: 'x' })
    );
    assert!(restored.get_key_state('x', usize_to_i32()).is_ok());
    assert!(restored.get_global_keyed_state('y', usize_to_i32()).is_ok());
    // a fresh store needs no declaration
    assert!(ss.get_time_key_map('x', usize_to_i32(), None).is_ok());
}

#[test]
fn keyed_round_trip_returns_last_value_per_key() {
    let (mut ss, task) = memory_for_test();
    let mut ks = ss.get_key_state('k', usize_to_i32()).unwrap();
    ks.insert(1, num(1), num(10));
    ks.insert(1, num(2), num(20));
    ks.insert(2, num(1), num(11));
    let first = do_checkpoint(&mut ss, &task.job_id, 1);

    let mut ks = ss.get_key_state('k', usize_to_i32()).unwrap();
    ks.remove(&num(2));
    ks.insert(3, num(3), num(30));
    ks.insert(3, num(1), num(12));
    let second = do_checkpoint(&mut ss, &task.job_id, 2);

    // changes after the last checkpoint are not part of any restore
    let mut ks = ss.get_key_state('k', usize_to_i32()).unwrap();
    ks.insert(4, num(4), num(40));

    let mut at_two = restored_from(&ss, &task, second);
    let ks = at_two.get_key_state('k', usize_to_i32()).unwrap();
    assert_eq!(ks.get(&num(1)), Some(&num(12)));
    assert_eq!(ks.get(&num(2)), None);
    assert_eq!(ks.get(&num(3)), Some(&num(30)));
    assert_eq!(ks.get(&num(4)), None);

    // an older restore point ignores what later epochs persisted
    let mut at_one = restored_from(&ss, &task, first);
    let ks = at_one.get_key_state('k', usize_to_i32()).unwrap();
    assert_eq!(ks.get(&num(1)), Some(&num(11)));
    assert_eq!(ks.get(&num(2)), Some(&num(20)));
    assert_eq!(ks.get(&num(3)), None);
}

#[test]
fn restore_is_idempotent() {
    let (mut ss, task) = memory_for_test();
    let mut ks = ss.get_time_key_map('t', usize_to_i32(), None).unwrap();
    ks.insert(10, num(1), num(1));
    ks.insert(20, num(2), num(2));
    let mut gs = ss.get_global_keyed_state('g', text_to_i64()).unwrap();
    gs.insert(key("a"), num(7));
    let first = do_checkpoint(&mut ss, &task.job_id, 1);

    let mut one = restored_from(&ss, &task, restored_metadata(&first));
    let mut two = restored_from(&ss, &task, first);
    let a = one.get_time_key_map('t', usize_to_i32(), Some(0)).unwrap();
    let b = two.get_time_key_map('t', usize_to_i32(), Some(0)).unwrap();
    assert_eq!(a.get_all(), b.get_all());
    assert_eq!(a.get_all(), vec![(10, &num(1), &num(1)), (20, &num(2), &num(2))]);
    // asking again serves the resident cache, not a second hydration
    let again = one.get_time_key_map('t', usize_to_i32(), Some(15)).unwrap();
    assert_eq!(again.get_all(), vec![(10, &num(1), &num(1)), (20, &num(2), &num(2))]);

    let a = one.get_global_keyed_state('g', text_to_i64()).unwrap();
    let b = two.get_global_keyed_state('g', text_to_i64()).unwrap();
    assert_eq!(a.get_all(), b.get_all());
    assert_eq!(a.get_all(), vec![&num(7)]);
}

#[test]
fn watermark_hides_expired_entries_on_restore() {
    let task = TaskInfo::for_test("job", "op");
    let tables = || {
        vec![
            timestamp_table(
                "t",
                "no retention",
                TableDeleteBehavior::NoReadsBeforeWatermark,
                TableWriteBehavior::DefaultWrites,
                0,
            ),
            timestamp_table(
                "r",
                "retains three",
                TableDeleteBehavior::NoReadsBeforeWatermark,
                TableWriteBehavior::DefaultWrites,
                3,
            ),
            timestamp_table(
                "a",
                "reads all",
                TableDeleteBehavior::NoDeletes,
                TableWriteBehavior::DefaultWrites,
                0,
            ),
        ]
    };
    let mut ss = StateStore::new(&task, tables(), MemoryBackend::new(&task));
    for table in ['t', 'r', 'a'] {
        let mut ks = ss.get_time_key_map(table, usize_to_i32(), None).unwrap();
        ks.insert(5, num(1), num(1));
        ks.insert(9, num(1), num(2));
        ks.insert(10, num(1), num(3));
        ks.insert(15, num(1), num(4));
    }
    let meta = do_checkpoint(&mut ss, "job", 1);
    let backend = MemoryBackend::from_checkpoint(&task, &meta, ss.backend());
    let mut restored = StateStore::from_checkpoint(&task, meta, tables(), backend);

    let mut ks = restored.get_time_key_map('t', usize_to_i32(), Some(10)).unwrap();
    assert_eq!(ks.get_all(), vec![(10, &num(1), &num(3)), (15, &num(1), &num(4))]);
    ks.insert(9, num(7), num(7));
    assert_eq!(ks.get_all().len(), 2);
    let ks = restored.get_time_key_map('r', usize_to_i32(), Some(10)).unwrap();
    assert_eq!(
        ks.get_all(),
        vec![(9, &num(1), &num(2)), (10, &num(1), &num(3)), (15, &num(1), &num(4))]
    );
    let ks = restored.get_time_key_map('a', usize_to_i32(), Some(10)).unwrap();
    assert_eq!(ks.get_all().len(), 4);
}

#[test]
fn checkpoint_skips_writes_before_the_watermark() {
    let task = TaskInfo::for_test("job", "op");
    let tables = || {
        vec![timestamp_table(
            "t",
            "time",
            TableDeleteBehavior::NoDeletes,
            TableWriteBehavior::NoWritesBeforeWatermark,
            0,
        )]
    };
    let mut ss = StateStore::new(&task, tables(), MemoryBackend::new(&task));
    let mut ks = ss.get_time_key_map('t', usize_to_i32(), None).unwrap();
    ks.insert(5, num(1), num(1));
    ks.insert(10, num(1), num(2));
    ks.insert(15, num(1), num(3));
    let flushed = ss.checkpoint(
        CheckpointBarrier { epoch: 1, min_epoch: 0, timestamp: 0, then_stop: false },
        Some(10),
    );
    assert_eq!(flushed, 1);
    // the resident table keeps everything
    let ks = ss.get_time_key_map('t', usize_to_i32(), None).unwrap();
    assert_eq!(ks.get_all().len(), 3);

    let meta = CheckpointMetadata {
        job_id: "job".to_string(),
        epoch: 1,
        min_epoch: 0,
        start_time: 0,
        finish_time: 0,
        operator_ids: vec![],
    };
    let backend = MemoryBackend::from_checkpoint(&task, &meta, ss.backend());
    let mut restored = StateStore::from_checkpoint(&task, meta, tables(), backend);
    let ks = restored.get_time_key_map('t', usize_to_i32(), None).unwrap();
    assert_eq!(ks.get_all(), vec![(10, &num(1), &num(2)), (15, &num(1), &num(3))]);
}

#[test]
fn write_rule_binds_time_key_maps_only() {
    let (mut ss, task) = memory_for_test();
    // 't' forbids writes before the watermark, but is used as a keyed table here
    let mut ks = ss.get_key_state('t', usize_to_i32()).unwrap();
    ks.insert(5, num(1), num(1));
    ks.insert(5, num(2), num(2));
    ss.checkpoint(
        CheckpointBarrier { epoch: 1, min_epoch: 0, timestamp: 0, then_stop: false },
        Some(100),
    );
    let mut ks = ss.get_key_state('t', usize_to_i32()).unwrap();
    ks.remove(&num(1));
    ss.checkpoint(
        CheckpointBarrier { epoch: 2, min_epoch: 0, timestamp: 0, then_stop: false },
        Some(200),
    );
    let meta = CheckpointMetadata {
        job_id: task.job_id.clone(),
        epoch: 2,
        min_epoch: 0,
        start_time: 0,
        finish_time: 0,
        operator_ids: vec![],
    };
    let mut restored = restored_from(&ss, &task, meta);
    let ks = restored.get_key_state('t', usize_to_i32()).unwrap();
    assert_eq!(ks.get(&num(1)), None);
    assert_eq!(ks.get(&num(2)), Some(&num(2)));
}

#[test]
fn checkpoint_flushes_only_the_delta() {
    let (mut ss, task) = memory_for_test();
    let mut ks = ss.get_key_state('k', usize_to_i32()).unwrap();
    ks.insert(1, num(1), num(10));
    ks.insert(1, num(1), num(11));
    ks.insert(1, num(2), num(20));
    do_checkpoint(&mut ss, &task.job_id, 1);
    // one tuple per changed key
    assert_eq!(arroyo_state::BackingStore::get_data_tuples(ss.backend(), 'k').len(), 2);

    let mut ks = ss.get_key_state('k', usize_to_i32()).unwrap();
    ks.insert(2, num(3), num(30));
    do_checkpoint(&mut ss, &task.job_id, 2);
    assert_eq!(arroyo_state::BackingStore::get_data_tuples(ss.backend(), 'k').len(), 3);
    assert_eq!(ss.backend().live_handles('k').len(), 2);

    // a checkpoint without changes writes no segment
    do_checkpoint(&mut ss, &task.job_id, 3);
    assert_eq!(ss.backend().live_handles('k').len(), 2);
}

#[test]
fn handle_watermark_changes_nothing() {
    let (mut ss, _task) = memory_for_test();
    let mut ks = ss.get_time_key_map('t', usize_to_i32(), None).unwrap();
    ks.insert(5, num(1), num(1));
    ss.handle_watermark(10);
    let ks = ss.get_time_key_map('t', usize_to_i32(), None).unwrap();
    assert_eq!(ks.get_all(), vec![(5, &num(1), &num(1))]);
    assert_eq!(ss.task_info().job_id, "test_job");
}

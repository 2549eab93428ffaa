use arroyo_state::memory::MemoryBackend;
use arroyo_state::metadata::{CheckpointBarrier, CheckpointMetadata, TaskInfo};
use arroyo_state::protocol::{checkpoint_with, CheckpointCycle, CheckpointPhase};
use arroyo_state::{StateError, StateStore, TypeTag};

fn barrier(epoch: u32, min_epoch: u32) -> CheckpointBarrier {
    CheckpointBarrier { epoch, min_epoch, timestamp: 0, then_stop: false }
}

#[test]
fn cycle_walks_through_its_phases() {
    let mut cycle = CheckpointCycle::new();
    assert_eq!(cycle.phase, CheckpointPhase::Idle);
    assert_eq!(cycle.on_barrier(barrier(1, 0)), Ok(()));
    assert_eq!(cycle.phase, CheckpointPhase::CheckpointRequested);
    assert_eq!((cycle.epoch, cycle.min_epoch), (1, 0));
    assert_eq!(cycle.on_flush_started(), Ok(()));
    assert_eq!(cycle.phase, CheckpointPhase::Flushing);
    assert_eq!(cycle.on_flushed(1), Ok(0));
    assert_eq!(cycle.phase, CheckpointPhase::Completed);
    assert_eq!(cycle.on_acknowledged(), Ok(()));
    assert_eq!(cycle.phase, CheckpointPhase::Acknowledged);
    // a new barrier restarts the cycle at a larger epoch
    assert_eq!(cycle.on_barrier(barrier(3, 2)), Ok(()));
    assert_eq!(cycle.phase, CheckpointPhase::CheckpointRequested);
    assert_eq!((cycle.epoch, cycle.min_epoch), (3, 2));
}

#[test]
fn cycle_rejects_steps_out_of_order() {
    let mut cycle = CheckpointCycle::new();
    assert_eq!(cycle.on_flush_started(), Err(StateError::OutOfOrder));
    assert_eq!(cycle.on_flushed(0), Err(StateError::OutOfOrder));
    assert_eq!(cycle.on_acknowledged(), Err(StateError::OutOfOrder));
    assert_eq!(cycle, CheckpointCycle::new());

    assert_eq!(cycle.on_barrier(barrier(1, 0)), Ok(()));
    // at most one flush in flight
    assert_eq!(cycle.on_barrier(barrier(2, 0)), Err(StateError::OutOfOrder));
    assert_eq!(cycle.on_flushed(1), Err(StateError::OutOfOrder));
    assert_eq!(cycle.on_flush_started(), Ok(()));
    assert_eq!(cycle.on_barrier(barrier(2, 0)), Err(StateError::OutOfOrder));
    // the backend must report the barrier's epoch
    assert_eq!(cycle.on_flushed(2), Err(StateError::InvalidBarrier { epoch: 2 }));
    assert_eq!(cycle.phase, CheckpointPhase::Flushing);
    assert_eq!(cycle.on_acknowledged(), Err(StateError::OutOfOrder));
    assert_eq!(cycle.on_flushed(1), Ok(0));
    assert_eq!(cycle.on_barrier(barrier(2, 0)), Err(StateError::OutOfOrder));
}

#[test]
fn cycle_rejects_barriers_that_do_not_advance() {
    let mut cycle = CheckpointCycle::new();
    assert_eq!(cycle.on_barrier(barrier(0, 0)), Err(StateError::InvalidBarrier { epoch: 0 }));
    assert_eq!(cycle.on_barrier(barrier(2, 3)), Err(StateError::InvalidBarrier { epoch: 2 }));
    assert_eq!(cycle.on_barrier(barrier(2, 2)), Ok(()));
    cycle.on_flush_started().unwrap();
    cycle.on_flushed(2).unwrap();
    cycle.on_acknowledged().unwrap();
    assert_eq!(cycle.on_barrier(barrier(2, 0)), Err(StateError::InvalidBarrier { epoch: 2 }));
    assert_eq!(cycle.on_barrier(barrier(1, 0)), Err(StateError::InvalidBarrier { epoch: 1 }));
    assert_eq!(cycle.phase, CheckpointPhase::Acknowledged);
    assert_eq!(cycle.epoch, 2);
}

#[test]
fn cycle_resumes_at_the_restored_epoch() {
    let good = CheckpointMetadata {
        job_id: "job".to_string(),
        epoch: 7,
        min_epoch: 5,
        start_time: 0,
        finish_time: 0,
        operator_ids: vec![],
    };
    let mut cycle = CheckpointCycle::resume(&good).unwrap();
    assert_eq!((cycle.phase, cycle.epoch, cycle.min_epoch), (CheckpointPhase::Idle, 7, 5));
    assert_eq!(cycle.on_barrier(barrier(7, 5)), Err(StateError::InvalidBarrier { epoch: 7 }));
    assert_eq!(cycle.on_barrier(barrier(8, 5)), Ok(()));

    let bad = CheckpointMetadata { epoch: 4, min_epoch: 5, ..good };
    assert_eq!(CheckpointCycle::resume(&bad), Err(StateError::InvalidBarrier { epoch: 4 }));
}

#[test]
fn checkpoint_with_flushes_accepted_barriers_only() {
    let task = TaskInfo::for_test("job", "op");
    let mut ss = StateStore::new(&task, vec![], MemoryBackend::new(&task));
    let mut cycle = CheckpointCycle::new();
    let types = TypeTag { key: 0, value: 0 };
    let mut ks = ss.get_key_state('k', types).unwrap();
    ks.insert(0, vec![1], vec![1]);

    assert_eq!(
        checkpoint_with(&mut ss, &mut cycle, barrier(0, 0), None),
        Err(StateError::InvalidBarrier { epoch: 0 })
    );
    assert!(ss.backend().live_handles('k').is_empty());

    assert_eq!(checkpoint_with(&mut ss, &mut cycle, barrier(1, 0), None), Ok(1));
    assert_eq!(cycle.phase, CheckpointPhase::Completed);
    assert_eq!(ss.backend().live_handles('k').len(), 1);

    // the flush is not yet acknowledged
    assert_eq!(
        checkpoint_with(&mut ss, &mut cycle, barrier(2, 0), None),
        Err(StateError::OutOfOrder)
    );
    cycle.on_acknowledged().unwrap();
    let mut ks = ss.get_key_state('k', types).unwrap();
    ks.insert(0, vec![2], vec![2]);
    assert_eq!(checkpoint_with(&mut ss, &mut cycle, barrier(2, 1), None), Ok(2));
    assert_eq!(ss.backend().live_handles('k').len(), 2);
}

use arroyo_state::catalog::CheckpointCatalog;
use arroyo_state::{CheckpointMetadata, StateError};

fn checkpoint(epoch: u32, min_epoch: u32) -> CheckpointMetadata {
    CheckpointMetadata {
        job_id: "job".to_string(),
        epoch,
        min_epoch,
        start_time: 10,
        finish_time: 20,
        operator_ids: vec!["op".to_string()],
    }
}

#[test]
fn absent_metadata_is_not_an_error() {
    let catalog = CheckpointCatalog::new();
    assert!(catalog.load_latest_checkpoint_metadata().is_none());
    assert!(catalog.load_checkpoint_metadata(1).is_none());
}

#[test]
fn completed_checkpoints_are_found_by_epoch() {
    let mut catalog = CheckpointCatalog::new();
    assert_eq!(catalog.complete_checkpoint(checkpoint(1, 0)), Ok(()));
    assert_eq!(catalog.complete_checkpoint(checkpoint(2, 1)), Ok(()));
    assert_eq!(catalog.complete_checkpoint(checkpoint(5, 2)), Ok(()));
    assert_eq!(catalog.load_latest_checkpoint_metadata().unwrap().epoch, 5);
    let second = catalog.load_checkpoint_metadata(2).unwrap();
    assert_eq!((second.epoch, second.min_epoch), (2, 1));
    assert!(catalog.load_checkpoint_metadata(3).is_none());
}

#[test]
fn epochs_must_grow_and_cover_their_minimum() {
    let mut catalog = CheckpointCatalog::new();
    assert_eq!(
        catalog.complete_checkpoint(checkpoint(1, 2)),
        Err(StateError::InvalidBarrier { epoch: 1 })
    );
    assert_eq!(catalog.complete_checkpoint(checkpoint(3, 3)), Ok(()));
    assert_eq!(
        catalog.complete_checkpoint(checkpoint(3, 0)),
        Err(StateError::InvalidBarrier { epoch: 3 })
    );
    assert_eq!(
        catalog.complete_checkpoint(checkpoint(2, 0)),
        Err(StateError::InvalidBarrier { epoch: 2 })
    );
    // a refused checkpoint never overwrites a recorded one
    assert_eq!(catalog.load_latest_checkpoint_metadata().unwrap().min_epoch, 3);
    assert_eq!(catalog.complete_checkpoint(checkpoint(4, 0)), Ok(()));
}

#[test]
fn cleanup_deletes_what_fell_below_the_minimum() {
    let mut catalog = CheckpointCatalog::new();
    for epoch in 1..=5 {
        catalog.complete_checkpoint(checkpoint(epoch, 0)).unwrap();
    }
    catalog.cleanup_checkpoint(3);
    assert!(catalog.load_checkpoint_metadata(1).is_none());
    assert!(catalog.load_checkpoint_metadata(2).is_none());
    assert_eq!(catalog.load_checkpoint_metadata(3).unwrap().epoch, 3);
    assert_eq!(catalog.load_latest_checkpoint_metadata().unwrap().epoch, 5);
    catalog.cleanup_checkpoint(2);
    assert_eq!(catalog.load_checkpoint_metadata(3).unwrap().epoch, 3);
    catalog.cleanup_checkpoint(9);
    assert!(catalog.load_latest_checkpoint_metadata().is_none());
    // epochs keep growing after a cleanup
    assert_eq!(
        catalog.complete_checkpoint(checkpoint(5, 0)),
        Err(StateError::InvalidBarrier { epoch: 5 })
    );
    assert_eq!(catalog.complete_checkpoint(checkpoint(6, 6)), Ok(()));
}

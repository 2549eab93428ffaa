use arroyo_state::{
    global_table, hash_key, tables_valid, timestamp_table, TableDeleteBehavior,
    TableType, TableWriteBehavior,
};

#[test]
fn global_table_has_no_watermark_rules() {
    let d = global_table("g", "test");
    assert_eq!(d.name, "g");
    assert_eq!(d.description, "test");
    assert_eq!(d.table_type, TableType::Global);
    assert_eq!(d.delete_behavior, TableDeleteBehavior::NoDeletes);
    assert_eq!(d.write_behavior, TableWriteBehavior::DefaultWrites);
    assert_eq!(d.retention_micros, 0);
    assert_eq!(d.table_id(), Some('g'));
}

#[test]
fn timestamp_table_keeps_its_rules() {
    let d = timestamp_table(
        "time",
        "a time table",
        TableDeleteBehavior::NoReadsBeforeWatermark,
        TableWriteBehavior::NoWritesBeforeWatermark,
        1_500_000,
    );
    assert_eq!(d.name, "time");
    assert_eq!(d.description, "a time table");
    assert_eq!(d.table_type, TableType::TimeKeyMap);
    assert_eq!(d.delete_behavior, TableDeleteBehavior::NoReadsBeforeWatermark);
    assert_eq!(d.write_behavior, TableWriteBehavior::NoWritesBeforeWatermark);
    assert_eq!(d.retention_micros, 1_500_000);
    assert_eq!(d.table_id(), Some('t'));
    let copy = d.duplicate();
    assert_eq!(copy.name, "time");
    assert_eq!(copy.retention_micros, 1_500_000);
}

#[test]
fn table_id_is_the_first_character() {
    assert_eq!(global_table("", "nameless").table_id(), None);
    assert_eq!(global_table("état", "accented").table_id(), Some('é'));
    assert!(tables_valid(&vec![global_table("a", ""), global_table("b", "")]));
    assert!(tables_valid(&vec![]));
    assert!(!tables_valid(&vec![global_table("ab", ""), global_table("ac", "")]));
    assert!(!tables_valid(&vec![global_table("a", ""), global_table("", "")]));
}

#[test]
fn min_valid_time_is_watermark_less_retention() {
    let d = timestamp_table(
        "t",
        "",
        TableDeleteBehavior::NoReadsBeforeWatermark,
        TableWriteBehavior::DefaultWrites,
        30,
    );
    assert_eq!(d.min_valid_time(Some(100)), 70);
    assert_eq!(d.min_valid_time(Some(30)), 0);
    assert_eq!(d.min_valid_time(Some(10)), 0);
    assert_eq!(d.min_valid_time(None), 0);
    let all = timestamp_table(
        "t",
        "",
        TableDeleteBehavior::NoDeletes,
        TableWriteBehavior::DefaultWrites,
        30,
    );
    assert_eq!(all.min_valid_time(Some(100)), 0);
}

#[test]
fn writes_before_the_watermark_follow_the_write_rule() {
    let strict = timestamp_table(
        "t",
        "",
        TableDeleteBehavior::NoDeletes,
        TableWriteBehavior::NoWritesBeforeWatermark,
        0,
    );
    assert!(!strict.writes(9, Some(10)));
    assert!(strict.writes(10, Some(10)));
    assert!(strict.writes(9, None));
    let lax = global_table("g", "");
    assert!(lax.writes(9, Some(10)));
}

#[test]
fn hash_key_is_a_function_of_the_key() {
    assert_eq!(hash_key(&42u64), hash_key(&42u64));
    assert_eq!(hash_key(&"k1".to_string()), hash_key(&"k1".to_string()));
    assert_ne!(hash_key(&1u64), hash_key(&2u64));
    assert_ne!(hash_key(&"k1"), hash_key(&"k2"));
}

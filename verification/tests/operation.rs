use arroyo_state::{DataOperation, StateError};

#[test]
fn wire_tags_round_trip() {
    assert_eq!(DataOperation::Insert.tag(), 0);
    assert_eq!(DataOperation::DeleteKey.tag(), 1);
    assert_eq!(DataOperation::from(0), DataOperation::Insert);
    assert_eq!(DataOperation::from(1), DataOperation::DeleteKey);
}

#[test]
fn unknown_wire_tag_is_rejected() {
    assert_eq!(DataOperation::decode(0), Ok(DataOperation::Insert));
    assert_eq!(DataOperation::decode(1), Ok(DataOperation::DeleteKey));
    assert_eq!(DataOperation::decode(2), Err(StateError::UnknownOperation { tag: 2 }));
    assert_eq!(DataOperation::decode(255), Err(StateError::UnknownOperation { tag: 255 }));
}

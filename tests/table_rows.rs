use state_store::indexer::{IndexerError, TableStateFilter};
use state_store::table_states::{IndexerTableState, TableStateProjection};

fn row(handle: u64, key_hex: &str, value: &str, tx_order: u64) -> IndexerTableState {
    IndexerTableState {
        table_handle: handle,
        key_hex: key_hex.as_bytes().to_vec(),
        key_str: b"\"k\"".to_vec(),
        value: value.as_bytes().to_vec(),
        key_type: b"0x1::string::String".to_vec(),
        value_type: b"u64".to_vec(),
        tx_order,
        state_index: 0,
        created_at: 10,
        updated_at: 10 + tx_order,
        removed: false,
    }
}

#[test]
fn table_state_rows_upsert_by_handle_and_key() {
    let mut p = TableStateProjection::new();
    assert_eq!(p.apply_table_state(row(1, "0x01", "5", 1)), Ok(()));
    assert_eq!(p.apply_table_state(row(1, "0x02", "6", 1)), Ok(()));
    assert_eq!(p.apply_table_state(row(2, "0x01", "7", 2)), Ok(()));
    assert_eq!(p.apply_table_state(row(1, "0x01", "8", 3)), Ok(()));
    let r = p.get_table_state(1, &b"0x01".to_vec()).unwrap();
    assert_eq!(r.value, b"8".to_vec());
    assert_eq!(r.tx_order, 3);
    let mut keys = p.query_table_states(&TableStateFilter::TableHandle(1));
    keys.sort();
    assert_eq!(keys, vec![b"0x01".to_vec(), b"0x02".to_vec()]);
    assert_eq!(p.query_table_states(&TableStateFilter::TableHandle(2)), vec![b"0x01".to_vec()]);
    assert!(p.query_table_states(&TableStateFilter::TableHandle(3)).is_empty());
}

#[test]
fn deleted_key_keeps_a_tombstone_row() {
    let mut p = TableStateProjection::new();
    assert_eq!(p.apply_table_state(row(1, "0x01", "5", 1)), Ok(()));
    assert_eq!(p.remove_table_state(1, &b"0x01".to_vec(), 2, 4, 99), Ok(()));
    let r = p.get_table_state(1, &b"0x01".to_vec()).unwrap();
    assert!(r.removed);
    assert_eq!(r.value, b"5".to_vec());
    assert_eq!(r.tx_order, 2);
    assert_eq!(r.state_index, 4);
    assert_eq!(r.updated_at, 99);
    assert_eq!(r.created_at, 10);
    assert_eq!(p.query_table_states(&TableStateFilter::TableHandle(1)), vec![b"0x01".to_vec()]);
    assert_eq!(p.remove_table_state(1, &b"0x09".to_vec(), 2, 5, 99), Ok(()));
    assert!(p.get_table_state(1, &b"0x09".to_vec()).is_none());
}

#[test]
fn stale_table_state_is_refused() {
    let mut p = TableStateProjection::new();
    assert_eq!(p.apply_table_state(row(1, "0x01", "5", 4)), Ok(()));
    assert_eq!(p.apply_table_state(row(1, "0x01", "6", 3)), Err(IndexerError::OutOfOrderDelivery));
    assert_eq!(p.remove_table_state(1, &b"0x01".to_vec(), 2, 0, 1), Err(IndexerError::OutOfOrderDelivery));
    let r = p.get_table_state(1, &b"0x01".to_vec()).unwrap();
    assert_eq!(r.value, b"5".to_vec());
    assert!(!r.removed);
}

#[test]
fn dropped_table_rows_become_tombstones() {
    let mut p = TableStateProjection::new();
    assert_eq!(p.apply_table_state(row(1, "0x01", "5", 1)), Ok(()));
    assert_eq!(p.apply_table_state(row(1, "0x02", "6", 1)), Ok(()));
    assert_eq!(p.apply_table_state(row(2, "0x01", "7", 1)), Ok(()));
    assert_eq!(p.remove_table(1, 3, 0, 77), Ok(()));
    assert!(p.get_table_state(1, &b"0x01".to_vec()).unwrap().removed);
    assert!(p.get_table_state(1, &b"0x02".to_vec()).unwrap().removed);
    assert_eq!(p.get_table_state(1, &b"0x02".to_vec()).unwrap().value, b"6".to_vec());
    assert!(!p.get_table_state(2, &b"0x01".to_vec()).unwrap().removed);
    assert_eq!(p.remove_table(1, 2, 0, 78), Err(IndexerError::OutOfOrderDelivery));
}

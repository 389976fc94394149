use state_store::gas::GasParameters;
use state_store::state::{KeyState, Op, State};
use state_store::store::BoxStore;
use state_store::table::BoxError;

fn key(b: u8) -> KeyState {
    KeyState::new(vec![b], b"u8".to_vec())
}

fn value(b: u8) -> State {
    State::new(vec![b], b"u8".to_vec())
}

#[test]
fn first_add_creates_table_and_commit_reports_it() {
    let mut s = BoxStore::new();
    assert_eq!(s.add_box(10, key(1), value(1)), Ok(()));
    assert_eq!(s.add_box(10, key(2), value(2)), Ok(()));
    assert_eq!(s.box_length(10), Ok(2));
    let cs = s.commit();
    assert_eq!(cs.new_tables, vec![10]);
    assert!(cs.removed_tables.is_empty());
    assert_eq!(cs.changes.len(), 1);
    assert_eq!(cs.changes[0].0, 10);
    assert_eq!(cs.changes[0].1.size_increment, 2);
    assert!(matches!(cs.changes[0].1.entries[0].1, Op::New(_)));
}

#[test]
fn unknown_handle_is_invalid() {
    let mut s = BoxStore::new();
    assert!(matches!(s.borrow_box(3, &key(1)), Err(BoxError::InvalidTableHandle)));
    assert!(matches!(s.remove_box(3, &key(1)), Err(BoxError::InvalidTableHandle)));
    assert_eq!(s.box_length(3), Err(BoxError::InvalidTableHandle));
    assert_eq!(s.drop_unchecked_box(3), Err(BoxError::InvalidTableHandle));
    assert!(!s.contains_box(3, &key(1)));
}

#[test]
fn created_and_dropped_in_one_transaction_leaves_nothing() {
    let mut s = BoxStore::new();
    assert_eq!(s.add_box(5, key(1), value(1)), Ok(()));
    assert_eq!(s.drop_unchecked_box(5), Ok(()));
    let cs = s.commit();
    assert!(cs.new_tables.is_empty());
    assert!(cs.removed_tables.is_empty());
    assert!(cs.changes.is_empty());
}

#[test]
fn dropping_an_older_table_records_removal_and_blocks_reuse() {
    let mut s = BoxStore::new();
    assert_eq!(s.add_box(6, key(1), value(1)), Ok(()));
    let _ = s.commit();
    assert_eq!(s.drop_unchecked_box(6), Ok(()));
    assert_eq!(s.add_box(6, key(2), value(2)), Err(BoxError::InvalidTableHandle));
    let cs = s.commit();
    assert_eq!(cs.removed_tables, vec![6]);
    assert!(cs.new_tables.is_empty());
    assert!(cs.changes.is_empty());
}

#[test]
fn later_transaction_reports_only_its_own_change() {
    let mut s = BoxStore::new();
    assert_eq!(s.add_box(1, key(1), value(1)), Ok(()));
    assert_eq!(s.add_box(2, key(1), value(1)), Ok(()));
    let _ = s.commit();
    assert_eq!(s.remove_box(2, &key(1)).unwrap().value, vec![1]);
    assert!(s.contains_box(1, &key(1)));
    assert_eq!(s.add_box(1, key(1), value(9)), Err(BoxError::DuplicateKey));
    let cs = s.commit();
    assert!(cs.new_tables.is_empty());
    assert_eq!(cs.changes.len(), 1);
    assert_eq!(cs.changes[0].0, 2);
    assert_eq!(cs.changes[0].1.size_increment, -1);
    assert!(matches!(cs.changes[0].1.entries[0].1, Op::Delete));
    assert_eq!(s.borrow_box(1, &key(1)).unwrap().value, vec![1]);
}

#[test]
fn load_charges_per_byte_or_failure_surcharge() {
    let gas = GasParameters::table_extension(1);
    let mut s = BoxStore::new();
    assert_eq!(s.add_box(1, key(1), State::new(vec![7, 7, 7], b"vector<u8>".to_vec())), Ok(()));
    let (found, cost) = s.load(&gas, 1, &key(1));
    assert_eq!(found.unwrap().value, vec![7, 7, 7]);
    assert_eq!(cost, 1000 + 10 * 3);
    let (missing, cost) = s.load(&gas, 1, &key(2));
    assert!(matches!(missing, Err(BoxError::NotFound)));
    assert_eq!(cost, 1005);
    let (unknown, cost) = s.load(&gas, 9, &key(1));
    assert!(matches!(unknown, Err(BoxError::InvalidTableHandle)));
    assert_eq!(cost, 1005);
}

#[test]
fn commit_lists_changes_by_ascending_handle() {
    let mut s = BoxStore::new();
    assert_eq!(s.add_box(9, key(1), value(1)), Ok(()));
    assert_eq!(s.add_box(2, key(1), value(1)), Ok(()));
    assert_eq!(s.add_box(5, key(1), value(1)), Ok(()));
    let cs = s.commit();
    let handles: Vec<u64> = cs.changes.iter().map(|c| c.0).collect();
    assert_eq!(handles, vec![2, 5, 9]);
}

#[test]
fn commit_lists_new_and_removed_tables_in_ascending_order() {
    let mut s = BoxStore::new();
    assert_eq!(s.add_box(8, key(1), value(1)), Ok(()));
    assert_eq!(s.add_box(3, key(1), value(1)), Ok(()));
    let _ = s.commit();
    assert_eq!(s.drop_unchecked_box(8), Ok(()));
    assert_eq!(s.drop_unchecked_box(3), Ok(()));
    assert_eq!(s.add_box(7, key(1), value(1)), Ok(()));
    assert_eq!(s.add_box(4, key(1), value(1)), Ok(()));
    let cs = s.commit();
    assert_eq!(cs.new_tables, vec![4, 7]);
    assert_eq!(cs.removed_tables, vec![3, 8]);
}

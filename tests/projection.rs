use state_store::indexer::{
    GlobalStateFilter, IndexerError, IndexerGlobalState, IndexerTableChangeSet, Projection,
    StateSyncFilter,
};
use state_store::state::{KeyState, State, TableChange};
use state_store::store::BoxStore;

fn row(id: u64, object_type: &str, owner: &str, tx_order: u64) -> IndexerGlobalState {
    IndexerGlobalState {
        object_id: id,
        owner: owner.as_bytes().to_vec(),
        flag: 0,
        value: b"{}".to_vec(),
        object_type: object_type.as_bytes().to_vec(),
        state_root: vec![0; 4],
        size: 0,
        tx_order,
        state_index: 0,
        created_at: 100 + tx_order,
        updated_at: 100 + tx_order,
    }
}

#[test]
fn object_type_query_returns_matches_by_tx_order() {
    let mut p = Projection::new();
    assert_eq!(p.apply_global_state(row(1, "0x1::coin::Coin", "alice", 1)), Ok(()));
    assert_eq!(p.apply_global_state(row(2, "0x1::nft::Nft", "bob", 2)), Ok(()));
    assert_eq!(p.apply_global_state(row(3, "0x1::coin::Coin", "bob", 3)), Ok(()));
    let ids = p.query_global_states(&GlobalStateFilter::ObjectType(b"0x1::coin::Coin".to_vec()));
    assert_eq!(ids, vec![1, 3]);
    // a later update of object 1 moves it behind object 3
    assert_eq!(p.apply_global_state(row(1, "0x1::coin::Coin", "alice", 4)), Ok(()));
    let ids = p.query_global_states(&GlobalStateFilter::ObjectType(b"0x1::coin::Coin".to_vec()));
    assert_eq!(ids, vec![3, 1]);
}

#[test]
fn owner_and_combined_filters() {
    let mut p = Projection::new();
    assert_eq!(p.apply_global_state(row(1, "T", "alice", 1)), Ok(()));
    assert_eq!(p.apply_global_state(row(2, "U", "alice", 2)), Ok(()));
    assert_eq!(p.apply_global_state(row(3, "T", "bob", 3)), Ok(()));
    assert_eq!(p.query_global_states(&GlobalStateFilter::Owner(b"alice".to_vec())), vec![1, 2]);
    assert_eq!(
        p.query_global_states(&GlobalStateFilter::ObjectTypeWithOwner {
            object_type: b"T".to_vec(),
            owner: b"bob".to_vec()
        }),
        vec![3]
    );
    assert_eq!(p.query_global_states(&GlobalStateFilter::ObjectId(2)), vec![2]);
    assert_eq!(p.query_global_states(&GlobalStateFilter::Owner(b"Alice".to_vec())), Vec::<u64>::new());
}

#[test]
fn out_of_order_row_is_refused() {
    let mut p = Projection::new();
    assert_eq!(p.apply_global_state(row(1, "T", "a", 5)), Ok(()));
    assert_eq!(p.apply_global_state(row(2, "T", "a", 4)), Err(IndexerError::OutOfOrderDelivery));
    assert!(p.get_global_state(2).is_none());
    assert_eq!(p.high_water_mark(), 5);
}

#[test]
fn reapplying_a_row_is_idempotent() {
    let mut p = Projection::new();
    assert_eq!(p.apply_global_state(row(1, "T", "a", 1)), Ok(()));
    assert_eq!(p.apply_global_state(row(2, "T", "a", 2)), Ok(()));
    let before = format!("{:?}", p.get_global_state(2));
    assert_eq!(p.apply_global_state(row(2, "T", "a", 2)), Ok(()));
    assert_eq!(format!("{:?}", p.get_global_state(2)), before);
    assert_eq!(p.query_global_states(&GlobalStateFilter::ObjectType(b"T".to_vec())), vec![1, 2]);

    let cs = IndexerTableChangeSet {
        tx_order: 2,
        state_index: 1,
        table_handle: 8,
        table_change: TableChange { entries: vec![], size_increment: 0 },
        created_at: 50,
    };
    assert_eq!(p.apply_table_change_set(cs.clone()), Ok(()));
    let first = format!("{:?}", p.get_table_change_set(2, 1));
    assert_eq!(p.apply_table_change_set(cs.clone()), Ok(()));
    assert_eq!(format!("{:?}", p.get_table_change_set(2, 1)), first);
    assert!(StateSyncFilter::TableHandle(8).matches(p.get_table_change_set(2, 1).unwrap()));
    assert!(p.get_table_change_set(2, 0).is_none());
    assert_eq!(p.high_water_mark(), 2);
}

#[test]
fn projecting_a_change_set_twice_gives_identical_rows() {
    let mut store = BoxStore::new();
    assert_eq!(store.add_box(4, KeyState::new(vec![1], b"u8".to_vec()), State::new(vec![2], b"u8".to_vec())), Ok(()));
    assert_eq!(store.add_box(9, KeyState::new(vec![3], b"u8".to_vec()), State::new(vec![4], b"u8".to_vec())), Ok(()));
    let cs = store.commit();
    assert_eq!(cs.changes.len(), 2);

    let mut p = Projection::new();
    assert_eq!(p.apply_state_change_set(7, &cs, 1000), Ok(()));
    let first: Vec<String> = (0..2u64).map(|i| format!("{:?}", p.get_table_change_set(7, i))).collect();
    assert_eq!(p.apply_state_change_set(7, &cs, 1000), Ok(()));
    let second: Vec<String> = (0..2u64).map(|i| format!("{:?}", p.get_table_change_set(7, i))).collect();
    assert_eq!(first, second);
    assert_eq!(p.get_table_change_set(7, 0).unwrap().table_handle, 4);
    assert_eq!(p.get_table_change_set(7, 1).unwrap().table_handle, 9);
    assert!(p.get_table_change_set(7, 2).is_none());
    assert_eq!(p.apply_state_change_set(6, &cs, 1000), Err(IndexerError::OutOfOrderDelivery));
}

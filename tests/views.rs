use state_store::indexer::{GlobalStateFilter, StateSyncFilter, TableStateFilter};
use state_store::state::{KeyState, Op, State, TableChange, TableTypeInfo, compare_bytes};
use state_store::view::{
    DynamicFieldView, GlobalStateFilterView, KeyStateView, OpView, SimpleKeyStateView,
    StateKVView, StateSyncFilterView, StateView, TableChangeView, TableStateFilterView,
    TableTypeInfoView,
};

#[test]
fn state_round_trips_through_view() {
    let s = State::new(vec![0xde, 0xad, 0x00], b"0x1::m::T".to_vec());
    let v = StateView::from_state(s.clone());
    assert!(v.decoded_value.is_none());
    let back = v.into_state();
    assert_eq!(back.value, s.value);
    assert_eq!(back.value_type, s.value_type);
}

#[test]
fn annotated_state_view_drops_decoded_on_the_way_in() {
    let s = State::new(vec![1, 2], b"u16".to_vec());
    let v = StateView::from_annotated(s, "513".to_string());
    assert_eq!(v.decoded_value.as_deref(), Some("513"));
    let back = v.into_state();
    assert_eq!(back.value, vec![1, 2]);
}

#[test]
fn key_views_round_trip() {
    let k = KeyState::new(vec![3, 4], b"u8".to_vec());
    let kv = KeyStateView::from_annotated(k.clone(), "x".to_string());
    let simple = SimpleKeyStateView::from_key_state_view(kv.clone());
    assert_eq!(simple.key, k.key);
    let back = simple.into_key_state();
    assert_eq!(back.key_type, k.key_type);
    let back2 = kv.into_key_state();
    assert_eq!(back2.key, k.key);
    let s2 = SimpleKeyStateView::from_key_state(k.clone());
    assert_eq!(s2.key_type, k.key_type);
    let plain = KeyStateView::from_key_state(k);
    assert!(plain.decoded_key.is_none());
}

#[test]
fn kv_and_dynamic_field_constructors() {
    let kv = StateKVView::new(
        KeyStateView::from_key_state(KeyState::new(vec![1], b"u8".to_vec())),
        StateView::from_state(State::new(vec![2], b"u8".to_vec())),
    );
    assert_eq!(kv.key_state.key, vec![1]);
    assert_eq!(kv.state.value, vec![2]);
    let pair = StateKVView::from_pair(KeyState::new(vec![5], b"u8".to_vec()), State::new(vec![6], b"u8".to_vec()));
    assert_eq!(pair.state.value, vec![6]);
    let f = DynamicFieldView::new(kv.key_state.clone(), OpView::Delete);
    assert!(matches!(f.v, OpView::Delete));
}

#[test]
fn table_type_info_round_trips() {
    let v = TableTypeInfoView::from_info(TableTypeInfo { key_type: b"address".to_vec() });
    assert_eq!(v.key_type, b"address".to_vec());
    assert_eq!(v.into_info().key_type, b"address".to_vec());
}

#[test]
fn table_change_round_trips_through_view() {
    let change = TableChange {
        entries: vec![
            (KeyState::new(vec![1], b"u8".to_vec()), Op::New(State::new(vec![9], b"u8".to_vec()))),
            (KeyState::new(vec![2], b"u8".to_vec()), Op::Modify(State::new(vec![8], b"u8".to_vec()))),
            (KeyState::new(vec![3], b"u8".to_vec()), Op::Delete),
        ],
        size_increment: -1,
    };
    let view = TableChangeView::from_change(&change);
    assert_eq!(view.entries.len(), 3);
    assert!(matches!(view.entries[2].v, OpView::Delete));
    let back = view.into_change();
    assert_eq!(back.size_increment, -1);
    assert_eq!(back.entries.len(), 3);
    assert_eq!(back.entries[1].0.key, vec![2]);
    match &back.entries[1].1 {
        Op::Modify(s) => assert_eq!(s.value, vec![8]),
        other => panic!("expected a modification, got {:?}", other),
    }
    let op = OpView::from_op(Op::New(State::new(vec![4], b"u8".to_vec())));
    assert!(matches!(op.into_op(), Op::New(_)));
}

#[test]
fn key_order_is_by_type_then_bytes() {
    let a = KeyState::new(vec![9], b"a".to_vec());
    let b = KeyState::new(vec![1], b"b".to_vec());
    let c = KeyState::new(vec![1, 0], b"b".to_vec());
    assert_eq!(a.compare(&b), -1);
    assert_eq!(b.compare(&c), -1);
    assert_eq!(c.compare(&a), 1);
    assert_eq!(c.compare(&c.clone()), 0);
    assert_eq!(compare_bytes(&vec![1, 2], &vec![1, 3]), -1);
    assert_eq!(compare_bytes(&vec![], &vec![0]), -1);
}

#[test]
fn key_sort_is_the_same_for_every_permutation() {
    let keys = vec![
        KeyState::new(vec![2], b"u8".to_vec()),
        KeyState::new(vec![1], b"u64".to_vec()),
        KeyState::new(vec![1], b"u8".to_vec()),
        KeyState::new(vec![], b"u8".to_vec()),
        KeyState::new(vec![0, 5], b"address".to_vec()),
    ];
    let sort = |mut v: Vec<KeyState>| {
        v.sort_by(|x, y| x.compare(y).cmp(&0));
        v.into_iter().map(|k| (k.key_type, k.key)).collect::<Vec<_>>()
    };
    let expected = sort(keys.clone());
    let mut rotated = keys.clone();
    for _ in 0..keys.len() {
        rotated.rotate_left(1);
        assert_eq!(sort(rotated.clone()), expected);
        let mut rev = rotated.clone();
        rev.reverse();
        assert_eq!(sort(rev), expected);
    }
    assert_eq!(expected[0].0, b"address".to_vec());
    assert_eq!(expected[2].1, Vec::<u8>::new());
}

#[test]
fn multichain_filter_resolves_to_owner() {
    let f = GlobalStateFilterView::into_global_state_filter(
        GlobalStateFilterView::MultiChainAddress { multichain_id: 0, address: "bc1q".to_string() },
        vec![0xaa; 4],
    );
    match f {
        GlobalStateFilter::Owner(o) => assert_eq!(o, vec![0xaa; 4]),
        other => panic!("expected an owner filter, got {:?}", other),
    }
    let g = GlobalStateFilterView::into_global_state_filter(GlobalStateFilterView::ObjectId(9), vec![]);
    assert!(matches!(g, GlobalStateFilter::ObjectId(9)));
    assert_eq!(TableStateFilterView::TableHandle(3).into_filter(), TableStateFilter::TableHandle(3));
    assert_eq!(StateSyncFilterView::TableHandle(4).into_filter(), StateSyncFilter::TableHandle(4));
}

#[test]
fn view_entries_come_back_in_key_order() {
    let mk = |k: u8, v: u8| DynamicFieldView::new(
        KeyStateView::from_key_state(KeyState::new(vec![k], b"u8".to_vec())),
        OpView::New(StateView::from_state(State::new(vec![v], b"u8".to_vec()))),
    );
    let a = TableChangeView { entries: vec![mk(3, 30), mk(1, 10), mk(2, 20)], size_increment: 3 };
    let b = TableChangeView { entries: vec![mk(2, 20), mk(3, 30), mk(1, 10)], size_increment: 3 };
    let ka: Vec<Vec<u8>> = a.into_change().entries.iter().map(|e| e.0.key.clone()).collect();
    let kb: Vec<Vec<u8>> = b.into_change().entries.iter().map(|e| e.0.key.clone()).collect();
    assert_eq!(ka, vec![vec![1], vec![2], vec![3]]);
    assert_eq!(ka, kb);
    let dup = TableChangeView { entries: vec![mk(1, 10), mk(1, 11)], size_increment: 2 };
    let merged = dup.into_change();
    assert_eq!(merged.entries.len(), 1);
    match &merged.entries[0].1 {
        Op::New(s) => assert_eq!(s.value, vec![11]),
        other => panic!("expected the later entry, got {:?}", other),
    }
}

#[test]
fn change_set_round_trips_through_view() {
    use_change_set_round_trip();
}

fn use_change_set_round_trip() {
    let cs = state_store::store::StateChangeSet {
        new_tables: vec![5],
        removed_tables: vec![6],
        changes: vec![(
            5,
            TableChange {
                entries: vec![(KeyState::new(vec![1], b"u8".to_vec()), Op::New(State::new(vec![2], b"u8".to_vec())))],
                size_increment: 1,
            },
        )],
    };
    let v = state_store::view::StateChangeSetView::from_change_set(&cs);
    assert_eq!(v.new_tables, vec![5]);
    assert!(v.changes[0].1.entries[0].k.decoded_key.is_none());
    let back = v.into_change_set();
    assert_eq!(back.removed_tables, vec![6]);
    assert_eq!(back.changes[0].0, 5);
    assert_eq!(back.changes[0].1.entries[0].0.key, vec![1]);
}

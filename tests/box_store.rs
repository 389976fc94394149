use state_store::gas::GasParameters;
use state_store::state::{KeyState, Op, State};
use state_store::table::{BoxError, BoxTable};

fn key(s: &str) -> KeyState {
    let mut bytes = vec![s.len() as u8];
    bytes.extend_from_slice(s.as_bytes());
    KeyState::new(bytes, b"0x1::string::String".to_vec())
}

fn value(n: u64) -> State {
    State::new(n.to_le_bytes().to_vec(), b"u64".to_vec())
}

#[test]
fn add_borrow_remove_drop_scenario() {
    let mul: u64 = 1000;
    let gas = GasParameters::table_extension(mul);
    let mut t = BoxTable::new(7);
    let k = key("a");
    let v = value(1);
    let size = (k.key.len() + v.value.len()) as u64;
    assert_eq!(size, 10);
    assert_eq!(gas.add_box_cost(size), (500 * mul + 10 * mul * size) as u128);
    assert_eq!(gas.add_box.charge_entry(&k, &v), (500 * mul + 10 * mul * size) as u128);
    assert_eq!(t.add_box(k.clone(), v.clone()), Ok(()));
    let got = t.borrow_box(&k).unwrap();
    assert_eq!(got.value, 1u64.to_le_bytes().to_vec());
    let removed = t.remove_box(&k).unwrap();
    assert_eq!(removed.value, 1u64.to_le_bytes().to_vec());
    assert_eq!(removed.value_type, b"u64".to_vec());
    assert_eq!(t.box_length(), 0);
    assert_eq!(gas.drop_unchecked_box_cost(), (100 * mul) as u128);
    assert_eq!(t.drop_unchecked_box(), 7);
}

#[test]
fn drop_cost_is_flat() {
    let gas = GasParameters::table_extension(3);
    let mut t = BoxTable::new(1);
    for i in 0..50u64 {
        assert_eq!(t.add_box(key(&format!("k{}", i)), value(i)), Ok(()));
    }
    assert_eq!(t.box_length(), 50);
    assert_eq!(gas.drop_unchecked_box_cost(), 300);
    assert_eq!(gas.box_length_cost(), 300);
    assert_eq!(t.drop_unchecked_box(), 1);
}

#[test]
fn duplicate_key_is_refused() {
    let mut t = BoxTable::new(1);
    assert_eq!(t.add_box(key("a"), value(1)), Ok(()));
    assert_eq!(t.add_box(key("a"), value(2)), Err(BoxError::DuplicateKey));
    assert_eq!(t.borrow_box(&key("a")).unwrap().value, 1u64.to_le_bytes().to_vec());
    assert_eq!(t.box_length(), 1);
}

#[test]
fn missing_key_is_not_found() {
    let mut t = BoxTable::new(1);
    assert!(matches!(t.borrow_box(&key("x")), Err(BoxError::NotFound)));
    assert!(matches!(t.remove_box(&key("x")), Err(BoxError::NotFound)));
    assert!(!t.contains_box(&key("x")));
    assert_eq!(t.add_box(key("x"), value(5)), Ok(()));
    assert!(t.contains_box(&key("x")));
}

#[test]
fn interleaved_adds_and_removes_track_length() {
    let mut t = BoxTable::new(2);
    assert_eq!(t.add_box(key("a"), value(1)), Ok(()));
    assert_eq!(t.add_box(key("b"), value(2)), Ok(()));
    assert!(t.remove_box(&key("a")).is_ok());
    assert_eq!(t.add_box(key("c"), value(3)), Ok(()));
    assert_eq!(t.add_box(key("a"), value(4)), Ok(()));
    assert!(t.remove_box(&key("b")).is_ok());
    assert!(t.remove_box(&key("zz")).is_err());
    assert_eq!(t.box_length(), 2);
    let change = t.take_change();
    assert_eq!(change.size_increment, 2);
    assert_eq!(change.entries.len(), 2);
    assert_eq!(t.box_length(), 2);
}

#[test]
fn add_then_remove_leaves_no_entry() {
    let mut t = BoxTable::new(3);
    assert_eq!(t.add_box(key("keep"), value(9)), Ok(()));
    assert_eq!(t.add_box(key("gone"), value(1)), Ok(()));
    assert!(t.remove_box(&key("gone")).is_ok());
    let change = t.take_change();
    assert_eq!(change.entries.len(), 1);
    assert_eq!(change.entries[0].0.key, key("keep").key);
    assert!(matches!(change.entries[0].1, Op::New(_)));
    assert_eq!(change.size_increment, 1);
}

#[test]
fn change_collapses_to_net_ops_in_key_order() {
    let mut t = BoxTable::new(4);
    assert_eq!(t.add_box(key("b"), value(1)), Ok(()));
    assert_eq!(t.add_box(key("a"), value(2)), Ok(()));
    let first = t.take_change();
    assert_eq!(first.entries.len(), 2);
    assert_eq!(first.entries[0].0.key, key("a").key);
    assert_eq!(first.entries[1].0.key, key("b").key);

    assert!(t.remove_box(&key("b")).is_ok());
    assert!(t.remove_box(&key("a")).is_ok());
    assert_eq!(t.add_box(key("a"), value(3)), Ok(()));
    assert_eq!(t.add_box(key("c"), value(4)), Ok(()));
    let second = t.take_change();
    assert_eq!(second.size_increment, 0);
    assert_eq!(second.entries.len(), 3);
    assert_eq!(second.entries[0].0.key, key("a").key);
    match &second.entries[0].1 {
        Op::Modify(s) => assert_eq!(s.value, 3u64.to_le_bytes().to_vec()),
        other => panic!("expected a modification, got {:?}", other),
    }
    assert!(matches!(second.entries[1].1, Op::Delete));
    assert!(matches!(second.entries[2].1, Op::New(_)));
}

#[test]
fn same_operations_in_another_order_give_the_same_change() {
    let run = |order: &[&str]| {
        let mut t = BoxTable::new(5);
        for k in order {
            assert_eq!(t.add_box(key(k), value(k.len() as u64)), Ok(()));
        }
        let c = t.take_change();
        c.entries.iter().map(|e| e.0.key.clone()).collect::<Vec<_>>()
    };
    let a = run(&["x", "a", "mm", "b"]);
    let b = run(&["b", "mm", "x", "a"]);
    assert_eq!(a, b);
}

use state_store::gas::{GasCost, GasParameters};

#[test]
fn default_schedule_scales_by_factor() {
    let gas = GasParameters::table_extension(2);
    assert_eq!(gas.load_base, 2000);
    assert_eq!(gas.load_per_byte, 20);
    assert_eq!(gas.load_failure, 10);
    assert_eq!(gas.add_box.base, 1000);
    assert_eq!(gas.add_box.per_byte, 20);
    assert_eq!(gas.remove_box.base, 1000);
    assert_eq!(gas.drop_unchecked_box_base, 200);
    assert_eq!(gas.box_length_base, 200);
}

#[test]
fn sized_cost_formula() {
    let gas = GasParameters::table_extension(1);
    assert_eq!(gas.add_box_cost(0), 500);
    assert_eq!(gas.add_box_cost(7), 570);
    assert_eq!(gas.borrow_box_cost(3), 530);
    assert_eq!(gas.contains_box_cost(1), 510);
    assert_eq!(gas.remove_box_cost(10), 600);
    assert_eq!(gas.load_cost(4), 1040);
    assert_eq!(gas.load_failure_cost(), 1005);
}

#[test]
fn failed_load_costs_less_than_large_load_but_not_nothing() {
    let gas = GasParameters::table_extension(1);
    assert!(gas.load_failure_cost() > 0);
    assert!(gas.load_failure_cost() < gas.load_cost(100));
}

#[test]
fn larger_value_never_costs_less() {
    let gas = GasParameters::table_extension(5);
    let mut prev = gas.add_box_cost(0);
    for size in 1..200u64 {
        let c = gas.add_box_cost(size);
        assert!(c >= prev);
        prev = c;
    }
}

#[test]
fn widest_cost_does_not_overflow() {
    let c = GasCost { base: u64::MAX, per_byte: u64::MAX };
    let expected = u64::MAX as u128 + (u64::MAX as u128) * (u64::MAX as u128);
    assert_eq!(c.charge(u64::MAX), expected);
}

use mosh_client::states::StateTable;

#[test]
fn a_new_table_holds_the_initial_state() {
    let table = StateTable::new("initial");
    assert_eq!(table.get(0), Some(&"initial"));
    assert_eq!(table.get(1), None);
}

#[test]
fn insertions_are_found_in_any_order_and_replace_earlier_ones() {
    let mut table = StateTable::new(0_u32);
    table.insert(5, 50);
    table.insert(2, 20);
    table.insert(9, 90);
    table.insert(5, 55);
    assert_eq!(table.get(0), Some(&0));
    assert_eq!(table.get(2), Some(&20));
    assert_eq!(table.get(5), Some(&55));
    assert_eq!(table.get(9), Some(&90));
    assert_eq!(table.get(3), None);
}

#[test]
fn discard_forgets_states_below_the_floor_and_the_evicted_one() {
    let mut table = StateTable::new(0_u64);
    for state in 1..=6 {
        table.insert(state, state * 10);
    }
    table.discard(3, Some(5));
    for state in 0..3 {
        assert_eq!(table.get(state), None);
    }
    assert_eq!(table.get(3), Some(&30));
    assert_eq!(table.get(4), Some(&40));
    assert_eq!(table.get(5), None);
    assert_eq!(table.get(6), Some(&60));

    table.discard(0, Some(42));
    assert_eq!(table.get(3), Some(&30));
    table.discard(7, None);
    assert_eq!(table.get(6), None);
}

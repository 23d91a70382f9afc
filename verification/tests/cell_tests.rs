use cellular_automata::space::cell::{Cell, AGING_DECREMENT, ALIVE_STATE};

#[test]
fn a_cell_is_alive_exactly_at_full_state() {
    let mut cell = Cell::new(3, 4, 0);
    assert_eq!(0, cell.get_state());
    assert!(!cell.is_alive());
    cell.set_state(254);
    assert!(!cell.is_alive());
    cell.set_state(ALIVE_STATE);
    assert!(cell.is_alive());
    cell.revive();
    assert_eq!(255, cell.get_state());
    assert!(cell.is_alive());
    cell.kill();
    assert_eq!(0, cell.get_state());
    assert!(!cell.is_alive());
}

#[test]
fn aging_from_full_state_reaches_zero_in_fifteen_steps() {
    let mut cell = Cell::new(0, 0, ALIVE_STATE);
    for i in 1u16..15 {
        cell.age();
        assert_eq!(255 - 17 * i, cell.get_state() as u16);
        assert!(!cell.is_alive());
    }
    cell.age();
    assert_eq!(0, cell.get_state());
    // aging a fully dead cell is a no-op
    cell.age();
    assert_eq!(0, cell.get_state());
}

#[test]
fn aging_clamps_instead_of_underflowing() {
    let mut cell = Cell::new(0, 0, AGING_DECREMENT - 1);
    cell.age();
    assert_eq!(0, cell.get_state());
    let mut exact = Cell::new(0, 0, AGING_DECREMENT);
    exact.age();
    assert_eq!(0, exact.get_state());
}

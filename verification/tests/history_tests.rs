use cellular_automata::space::io::read_grid_text;
use cellular_automata::space::Space;

fn glider_text() -> Vec<u8> {
    let content = "\
0100000000
0010000000
1110000000
0000000000
0000000000
0000000000
0000000000
0000000000
0000000000
0000000000
";
    content.as_bytes().to_vec()
}

#[test]
fn save_and_load_states_work() {
    let mut space = read_grid_text(&glider_text()).unwrap();
    let alive_cells_of_gen_0 = space.get_alive_cells();
    for _ in 1..2 {
        space.compute_conways_game_of_life_multithreaded();
    }
    space.load_state(0);
    let alive_cells_of_loaded_gen_0 = space.get_alive_cells();
    for i in 0..alive_cells_of_gen_0.len() {
        assert_eq!(alive_cells_of_gen_0[i], alive_cells_of_loaded_gen_0[i]);
    }
}

#[test]
fn load_state_clears_residual_energy() {
    let array: Vec<Vec<u8>> = vec![
        vec![0, 0, 0],
        vec![0, 1, 0],
        vec![0, 0, 0],
    ];
    let mut space = Space::build_from_array(&array);
    space.save_state(0);
    // one tick leaves the center cell with residual energy, not alive
    space.compute_conways_game_of_life_multithreaded();
    assert_eq!(238, space.get_cell(1, 1).unwrap().get_state());
    space.load_state(0);
    assert_eq!(255, space.get_cell(1, 1).unwrap().get_state());
    assert_eq!(1, space.get_num_alive_cells());
    assert_eq!(0, space.get_cell(0, 0).unwrap().get_state());
    assert_eq!(0, space.displayed_time);
}

#[test]
fn editing_invalidates_previously_stored_future() {
    let mut space = Space::new(5, 5);
    space.revive_cell(1, 1).unwrap();
    space.revive_cell(2, 1).unwrap();
    space.revive_cell(3, 1).unwrap();
    space.save_state(0);
    // compute and store a future: generations 1, 2 and 3
    for t in 1..4 {
        space.compute_conways_game_of_life_multithreaded();
        space.save_state(t);
    }
    assert_eq!(4, space.num_states());
    assert!(space.contains_state(3));
    // go back to generation 1 and edit the grid there
    space.load_state(1);
    space.revive_cell(0, 0).unwrap();
    // the stored generations 2 and 3 are stale now: drop them, then save
    // the edited state as the new generation 2
    space.invalidate_future_states(2);
    assert!(!space.contains_state(2));
    assert!(!space.contains_state(3));
    space.save_state(2);
    assert_eq!(3, space.num_states());
    assert!(space.contains_state(0));
    assert!(space.contains_state(1));
    assert!(space.contains_state(2));
    assert_eq!(2, space.displayed_time);
}

#[test]
fn invalidation_stops_at_the_first_gap() {
    let mut space = Space::new(3, 3);
    space.save_state(0);
    space.save_state(1);
    space.save_state(5);
    space.invalidate_future_states(1);
    assert!(space.contains_state(0));
    assert!(!space.contains_state(1));
    // the walk stops at the gap at 2, so the entry at 5 survives
    assert!(space.contains_state(5));
}

#[test]
fn step_forward_computes_and_stores_the_next_generation() {
    let array: Vec<Vec<u8>> = vec![
        vec![0, 1, 0],
        vec![0, 1, 0],
        vec![0, 1, 0],
    ];
    let mut space = Space::build_from_array(&array);
    space.save_state(0);
    space.step_forward_in_time();
    assert_eq!(1, space.displayed_time);
    assert!(space.contains_state(1));
    // the vertical blinker has flipped to horizontal
    assert!(space.check_cell_is_alive(0, 1));
    assert!(space.check_cell_is_alive(1, 1));
    assert!(space.check_cell_is_alive(2, 1));
}

#[test]
fn step_back_and_forward_reuse_stored_generations() {
    let array: Vec<Vec<u8>> = vec![
        vec![0, 1, 0],
        vec![0, 1, 0],
        vec![0, 1, 0],
    ];
    let mut space = Space::build_from_array(&array);
    space.save_state(0);
    space.step_forward_in_time();
    assert!(space.step_back_in_time());
    assert_eq!(0, space.displayed_time);
    // the original vertical blinker is shown again
    assert!(space.check_cell_is_alive(1, 0));
    assert!(space.check_cell_is_alive(1, 1));
    assert!(space.check_cell_is_alive(1, 2));
    // stepping forward again reuses the stored generation 1
    space.step_forward_in_time();
    assert_eq!(1, space.displayed_time);
    assert!(space.check_cell_is_alive(0, 1));
    // at the very beginning there is nothing earlier to show
    space.load_state(0);
    assert!(!space.step_back_in_time());
    assert_eq!(0, space.displayed_time);
}

#[test]
fn jump_to_state_and_to_latest_work() {
    let mut space = Space::new(4, 4);
    space.revive_cell(1, 1).unwrap();
    space.save_state(0);
    for t in 1..3 {
        space.compute_conways_game_of_life_multithreaded();
        space.save_state(t);
    }
    assert!(space.jump_to_state(0));
    assert_eq!(0, space.displayed_time);
    assert!(space.jump_to_latest_state());
    assert_eq!(2, space.displayed_time);
    assert!(!space.jump_to_state(9));
}

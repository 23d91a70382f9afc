use cellular_automata::space::io::{read_grid_text, write_grid_text, GridTextError};
use cellular_automata::space::Space;

#[test]
fn io_write_to_file_works() {
    let space = Space::build_from_array(&vec![
        vec![0, 1, 0, 0],
        vec![1, 0, 0, 0],
        vec![0, 0, 0, 1],
        vec![0, 0, 0, 0],
        vec![0, 1, 0, 0],
    ]);
    let text = write_grid_text(&space);
    assert_eq!("0100\n1000\n0001\n0000\n0100\n".as_bytes(), text.as_slice());
}

#[test]
fn io_read_from_file_works() {
    let text = "0100\n1000\n0001\n0000\n0100\n".as_bytes().to_vec();
    let space = read_grid_text(&text).unwrap();
    assert_eq!(true, space.get_cell(1, 0).unwrap().is_alive());
    assert_eq!(true, space.get_cell(0, 1).unwrap().is_alive());
    assert_eq!(true, space.get_cell(3, 2).unwrap().is_alive());
    assert_eq!(true, space.get_cell(1, 4).unwrap().is_alive());
    assert_eq!(4, space.get_num_alive_cells());
}

#[test]
fn export_then_import_reproduces_the_alive_set() {
    let array: Vec<Vec<u8>> = vec![
        vec![1, 0, 0, 1],
        vec![0, 1, 1, 0],
        vec![1, 0, 0, 1],
    ];
    let original = Space::build_from_array(&array);
    let reloaded = read_grid_text(&write_grid_text(&original)).unwrap();
    assert_eq!(original.x_dim(), reloaded.x_dim());
    assert_eq!(original.y_dim(), reloaded.y_dim());
    assert_eq!(original.alive_coords(), reloaded.alive_coords());
    // a freshly imported grid starts its history at generation 0
    assert_eq!(0, reloaded.displayed_time);
    assert!(reloaded.contains_state(0));
}

#[test]
fn residual_energy_rounds_to_dead_on_export() {
    let array: Vec<Vec<u8>> = vec![
        vec![0, 0, 0],
        vec![0, 1, 0],
        vec![0, 0, 0],
    ];
    let mut space = Space::build_from_array(&array);
    space.compute_conways_game_of_life_multithreaded();
    // the center cell has residual energy 238 now, and exports as dead
    assert_eq!(238, space.get_cell(1, 1).unwrap().get_state());
    assert_eq!("000\n000\n000\n".as_bytes(), write_grid_text(&space).as_slice());
    let reloaded = read_grid_text(&write_grid_text(&space)).unwrap();
    assert_eq!(0, reloaded.get_cell(1, 1).unwrap().get_state());
}

#[test]
fn read_rejects_empty_text() {
    assert_eq!(Err(GridTextError::Empty), read_grid_text(&Vec::new()).map(|_| ()));
    // a leading blank line means an empty first row
    let text = "\n10\n".as_bytes().to_vec();
    assert_eq!(Err(GridTextError::Empty), read_grid_text(&text).map(|_| ()));
}

#[test]
fn read_rejects_ragged_rows() {
    let text = "010\n01\n000\n".as_bytes().to_vec();
    assert_eq!(Err(GridTextError::Ragged), read_grid_text(&text).map(|_| ()));
}

#[test]
fn read_rejects_oversized_rows() {
    let mut text: Vec<u8> = Vec::new();
    for _ in 0..70000 {
        text.push(b'0');
    }
    text.push(b'\n');
    assert_eq!(Err(GridTextError::TooLarge), read_grid_text(&text).map(|_| ()));
}

#[test]
fn read_tolerates_windows_line_endings_and_missing_final_newline() {
    let text = "01\r\n10".as_bytes().to_vec();
    let space = read_grid_text(&text).unwrap();
    assert_eq!(2, space.x_dim());
    assert_eq!(2, space.y_dim());
    assert!(space.check_cell_is_alive(1, 0));
    assert!(space.check_cell_is_alive(0, 1));
    assert!(!space.check_cell_is_alive(0, 0));
    assert_eq!(2, space.get_num_alive_cells());
}

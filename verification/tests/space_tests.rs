use cellular_automata::space::Space;

#[test]
fn space_works() {
    let mut space = Space::new(100, 100);
    assert_eq!(100, space.x_dim());
    assert_eq!(100, space.y_dim());
    {
        // borrow mutable cell and revive within this scope
        let cell = space.get_cell_mut(0, 0).unwrap();
        assert_eq!(false, cell.is_alive());
        cell.revive();
        assert_eq!(true, cell.is_alive());
    }
    // check if cell is actually revived in space
    assert_eq!(true, space.get_cell(0, 0).unwrap().is_alive());
    {
        // kill cell with borrowed mutable
        let cell = space.get_cell_mut(0, 0).unwrap();
        assert_eq!(true, cell.is_alive());
        cell.kill();
    }
    // check if its actually dead
    assert_eq!(false, space.get_cell(0, 0).unwrap().is_alive());
    space.revive_random_cells(100);
    assert_eq!(100, space.get_num_alive_cells());
    space.kill_all_cells();
    assert_eq!(0, space.get_num_alive_cells());
}

#[test]
fn revive_random_cells_works() {
    let mut space = Space::new(100, 100);
    space.revive_random_cells(100);
    assert_eq!(100, space.get_num_alive_cells());
}

#[test]
fn revive_random_cells_caps_at_grid_size() {
    let mut space = Space::new(4, 4);
    space.revive_random_cells(1000);
    assert_eq!(16, space.get_num_alive_cells());
}

#[test]
fn build_space_from_array_works() {
    let array: Vec<Vec<u8>> = vec![
        vec![0, 1, 0, 0],
        vec![1, 0, 0, 0],
        vec![0, 0, 0, 1],
    ];
    let space = Space::build_from_array(&array);
    assert_eq!(4, space.x_dim());
    assert_eq!(3, space.y_dim());
    assert_eq!(false, space.get_cell(0, 0).unwrap().is_alive());
    assert_eq!(true, space.get_cell(1, 0).unwrap().is_alive());
    assert_eq!(true, space.get_cell(0, 1).unwrap().is_alive());
    assert_eq!(false, space.get_cell(1, 1).unwrap().is_alive());
    assert_eq!(false, space.get_cell(1, 2).unwrap().is_alive());
    assert_eq!(true, space.get_cell(3, 2).unwrap().is_alive());
}

#[test]
fn get_cell_out_of_bounds_panics() {
    let space = Space::new(10, 10);
    let result = space.get_cell(10, 10);
    assert!(result.is_err());
    assert_eq!(result.unwrap_err().message, "Index out of bounds!");
}

#[test]
fn get_cell_mut_out_of_bounds_is_an_error() {
    let mut space = Space::new(10, 10);
    assert!(space.get_cell_mut(0, 10).is_err());
    assert!(space.get_cell_mut(10, 0).is_err());
    assert!(space.get_cell_mut(9, 9).is_ok());
    assert!(space.revive_cell(10, 10).is_err());
    assert!(space.kill_cell(10, 10).is_err());
    assert!(space.let_cell_age(10, 10).is_err());
}

#[test]
fn get_moore_neighbourhood_works() {
    let space = Space::new(3, 3);
    let cell = space.get_cell(1, 1).unwrap();
    let neighbors = space.get_neighbors_vec(cell);
    assert_eq!(neighbors.len(), 8);
}

#[test]
fn moore_neighbourhood_is_truncated_at_edges() {
    let space = Space::new(5, 4);
    // corner cells have 3 neighbors
    for &(x, y) in &[(0u16, 0u16), (4, 0), (0, 3), (4, 3)] {
        let cell = *space.get_cell(x, y).unwrap();
        assert_eq!(3, space.get_neighbors_vec(&cell).len());
    }
    // edge (non-corner) cells have 5 neighbors
    for &(x, y) in &[(1u16, 0u16), (0, 1), (4, 2), (2, 3)] {
        let cell = *space.get_cell(x, y).unwrap();
        assert_eq!(5, space.get_neighbors_vec(&cell).len());
    }
    // interior cells have 8 neighbors
    for &(x, y) in &[(1u16, 1u16), (3, 2), (2, 1)] {
        let cell = *space.get_cell(x, y).unwrap();
        assert_eq!(8, space.get_neighbors_vec(&cell).len());
    }
}

#[test]
fn kill_all_cells_works() {
    let mut space = Space::new(200, 300);
    space.revive_random_cells(1200);
    let start = std::time::Instant::now();
    space.kill_all_cells();
    let duration = start.elapsed();
    let duration_ms = duration.as_millis();
    println!("Killing all cells in {:?} ms", duration_ms);
    assert_eq!(0, space.get_num_alive_cells());
}

#[test]
fn alive_cells_are_listed_in_column_major_order() {
    let array: Vec<Vec<u8>> = vec![
        vec![1, 0, 1],
        vec![0, 1, 0],
    ];
    let space = Space::build_from_array(&array);
    let coords = space.alive_coords();
    // x outer, y inner: (0,0), (1,1), (2,0)
    assert_eq!(vec![(0u16, 0u16), (1, 1), (2, 0)], coords);
    let cells = space.get_alive_cells();
    assert_eq!(3, cells.len());
    assert_eq!((0, 0, 255), (cells[0].x, cells[0].y, cells[0].get_state()));
    assert_eq!((1, 1, 255), (cells[1].x, cells[1].y, cells[1].get_state()));
    assert_eq!((2, 0, 255), (cells[2].x, cells[2].y, cells[2].get_state()));
}

#[test]
fn cells_with_energy_include_aging_cells() {
    let array: Vec<Vec<u8>> = vec![
        vec![0, 0, 0],
        vec![0, 1, 0],
        vec![0, 0, 0],
    ];
    let mut space = Space::build_from_array(&array);
    // the lone cell dies gradually: after one tick it has residual energy
    space.compute_conways_game_of_life_multithreaded();
    assert_eq!(0, space.get_num_alive_cells());
    let glowing = space.get_cells_with_energy();
    assert_eq!(1, glowing.len());
    assert_eq!((1, 1), (glowing[0].x, glowing[0].y));
    assert_eq!(238, glowing[0].get_state());
}

use cellular_automata::space::io::write_grid_text;
use cellular_automata::space::Space;

fn print_state(space: &Space) {
    println!("{}", String::from_utf8(write_grid_text(space)).unwrap());
}

#[test]
fn conways_game_of_life_rule_1_works() {
    let mut space = Space::build_from_array(
        &vec![vec![0, 0, 0],
                    vec![0, 1, 1],
                    vec![0, 0, 0]]
    );
    println!("----------------------------------");
    println!("Rule 1: Dying is wonderful");
    println!("----------------------------------");
    println!("Generation: 0");
    print_state(&space);
    println!("Generation: 1");
    space.compute_conways_game_of_life_multithreaded();
    print_state(&space);
    assert_eq!(false, space.check_cell_is_alive(1, 1));
    assert_eq!(false, space.check_cell_is_alive(1, 1));
}

#[test]
fn conways_game_of_life_rule_2_works() {
    let mut space = Space::build_from_array(
&vec![vec![1, 0, 0],
            vec![0, 1, 0],
            vec![0, 0, 1]]
    );
    println!("----------------------------------");
    println!("Rule 2: Staying Alive");
    println!("----------------------------------");
    println!("Generation: 0");
    print_state(&space);
    println!("Generation: 1");
    space.compute_conways_game_of_life_multithreaded();
    print_state(&space);
    assert_eq!(false, space.check_cell_is_alive(0, 0));
    assert_eq!(true, space.check_cell_is_alive(1, 1));
    assert_eq!(false, space.check_cell_is_alive(2, 2));
}

#[test]
fn conways_game_of_life_rule_3_works() {
    let mut space = Space::build_from_array(
&vec![vec![1, 1, 0],
            vec![0, 1, 1],
            vec![0, 1, 0]]
    );
    println!("----------------------------------");
    println!("Rule 3: Overpopulation");
    println!("----------------------------------");
    println!("Generation: 0");
    print_state(&space);
    println!("Generation: 1");
    space.compute_conways_game_of_life_multithreaded();
    print_state(&space);
    assert_eq!(6, space.get_num_alive_cells());
    assert_eq!(false, space.get_cell(1, 1).unwrap().is_alive());
}

#[test]
fn conways_game_of_life_rule_4_works() {
    let mut space = Space::build_from_array(
&vec![vec![1, 0, 0],
            vec![0, 0, 1],
            vec![0, 1, 0]]
    );
    println!("----------------------------------");
    println!("Rule 4: New Life");
    println!("----------------------------------");
    println!("Generation: 0");
    print_state(&space);
    println!("Generation: 1");
    space.compute_conways_game_of_life_multithreaded();
    print_state(&space);
    assert_eq!(true, space.check_cell_is_alive(1, 1));
    assert_eq!(1, space.get_num_alive_cells())
}

#[test]
fn conways_game_of_life_oscillator_works() {
    let mut space = Space::build_from_array(
&vec![vec![0, 1, 0],
            vec![0, 1, 0],
            vec![0, 1, 0]]
    );
    println!("----------------------------------");
    println!("Oscillator");
    println!("----------------------------------");
    println!("Generation: 0");
    print_state(&space);
    println!("Generation: 1");
    space.compute_conways_game_of_life_multithreaded();
    print_state(&space);
    assert_eq!(true, space.check_cell_is_alive(0, 1));
    assert_eq!(true, space.check_cell_is_alive(1, 1));
    assert_eq!(true, space.check_cell_is_alive(2, 1));
    println!("Generation: 2");
    space.compute_conways_game_of_life_multithreaded();
    print_state(&space);
    assert_eq!(true, space.check_cell_is_alive(1, 0));
    assert_eq!(true, space.check_cell_is_alive(1, 1));
    assert_eq!(true, space.check_cell_is_alive(1, 2));
}

#[test]
fn cell_aging_works() {
    println!("----------------------------------");
    println!("Cell aging");
    println!("----------------------------------");
    let mut space = Space::build_from_array(&vec![
        vec![0, 0, 0],
        vec![0, 1, 0],
        vec![0, 0, 0],
    ]);
    assert_eq!(true, space.check_cell_is_alive(1, 1));
    println!("Energy(1,1) in t=0: {}", space.get_cell(1, 1).unwrap().get_state());
    assert_eq!(255, space.get_cell(1, 1).unwrap().get_state());
    for i in 1..16 {
        space.compute_conways_game_of_life_multithreaded();
        assert_eq!(false, space.check_cell_is_alive(1, 1));
        println!("Energy(1,1) in t={}: {}", i, space.get_cell(1, 1).unwrap().get_state());
        assert_eq!(255 - (17 * i), space.get_cell(1, 1).unwrap().get_state());
    }
    assert_eq!(0, space.get_cell(1, 1).unwrap().get_state());
}

#[test]
fn single_threaded_and_multithreaded_ticks_agree() {
    let array: Vec<Vec<u8>> = vec![
        vec![0, 1, 0, 0, 1],
        vec![1, 1, 0, 0, 0],
        vec![0, 1, 1, 0, 1],
        vec![0, 0, 1, 1, 0],
    ];
    let mut a = Space::build_from_array(&array);
    let mut b = Space::build_from_array(&array);
    for _ in 0..4 {
        a.compute_conways_game_of_life_single_threaded();
        b.compute_conways_game_of_life_multithreaded();
        assert_eq!(a.get_alive_cells(), b.get_alive_cells());
        assert_eq!(write_grid_text(&a), write_grid_text(&b));
    }
}

#[test]
fn full_hd_grid_performance_test() {
    println!("----------------------------------");
    println!("Performance Test");
    println!("----------------------------------");
    let mut space = Space::new(200, 110);
    space.revive_random_cells(50000);
    let start = std::time::Instant::now();
    let mut duration = start.elapsed().as_millis();
    let mut iterations = 0;
    while duration < 1000 {
        space.compute_conways_game_of_life_multithreaded();
        duration = start.elapsed().as_millis();
        iterations += 1;
    }
    println!("A grid of the size 200x110 with a Cell size of 9.5 must be able to calculate at least 30 iterations per second.");
    println!("iterations per 1 s: {}", iterations);
    assert!(iterations >= 30);
}

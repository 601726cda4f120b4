use automaton_engine::singleuni::{init, kill_all};
use automaton_engine::{CellState, Universe_v2};

fn alive_v2(u: &Universe_v2) -> Vec<usize> {
    u.get_cells().iter().enumerate().filter(|(_, c)| **c == CellState::Alive).map(|(k, _)| k).collect()
}

fn blank_v2() -> Universe_v2 {
    let mut u = Universe_v2::new();
    kill_all(&mut u);
    kill_all(&mut u);
    u
}

#[test]
fn v2_new_universe_is_seeded() {
    let u = Universe_v2::new();
    assert_eq!(u.get_width(), 128);
    assert_eq!(u.get_height(), 128);
    assert_eq!(u.get_cells().len(), 128 * 128);
    for k in 0..(128 * 128) {
        let expected = if k % 2 == 0 || k % 7 == 0 { CellState::Alive } else { CellState::Dead };
        assert_eq!(u.get_cells()[k], expected);
    }
    assert_eq!(u.get_enabled(0, 1), CellState::Dead);
    assert_eq!(u.get_index(1, 2), 130);
    assert_eq!(u.get_index_tu((2, 1)), 130);
}

#[test]
fn v2_neighbour_counts_and_first_generation() {
    let mut u = Universe_v2::new();
    assert_eq!(u.get_live_neighbour_count(0, 0), 2);
    assert_eq!(u.get_live_neighbour_count(5, 3), 6);
    u.tick_life();
    let cells = alive_v2(&u);
    assert_eq!(cells.len(), 5834);
    assert_eq!(&cells[..7], &[0, 2, 8, 10, 12, 14, 16]);
}

#[test]
fn v2_kill_all_then_glider() {
    let mut u = blank_v2();
    assert!(alive_v2(&u).is_empty());
    u.insert_glider(0, 0);
    assert_eq!(alive_v2(&u), vec![1, 127, 128, 129, 127 * 128 + 1]);
}

#[test]
fn v2_toggle_twice() {
    let mut u = blank_v2();
    u.toggle(3, 4);
    assert_eq!(alive_v2(&u), vec![3 * 128 + 4]);
    u.toggle(3, 4);
    assert!(alive_v2(&u).is_empty());
}

#[test]
fn v2_pulsar_period_three() {
    let mut u = blank_v2();
    u.insert_pulsar(60, 60);
    let start = alive_v2(&u);
    assert_eq!(start.len(), 48);
    u.tick_life();
    u.tick_life();
    u.tick_life();
    assert_eq!(alive_v2(&u), start);
}

#[test]
fn v2_set_cells_and_blinker() {
    let mut u = blank_v2();
    u.set_cells(&[(10, 9), (10, 10), (10, 11)]);
    u.tick_life();
    assert_eq!(alive_v2(&u), vec![9 * 128 + 10, 10 * 128 + 10, 11 * 128 + 10]);
}

#[test]
fn v2_init_seeds_the_front() {
    let mut u = blank_v2();
    init(&mut u);
    let seeded: Vec<usize> = (0..(128 * 128)).filter(|k| k % 2 == 0 || k % 7 == 0).collect();
    assert_eq!(alive_v2(&u), seeded);
}

#[test]
fn v2_load_generation_swaps_in_the_states() {
    let mut u = blank_v2();
    let mut states = vec![CellState::Dead; 128 * 128];
    states[5] = CellState::Alive;
    u.load_generation(&states);
    assert_eq!(alive_v2(&u), vec![5]);
}

#[test]
fn v2_set_dimensions_empties_the_buffers() {
    let mut u = Universe_v2::new();
    u.set_dimensions(6, 6);
    assert_eq!(u.get_width(), 6);
    assert_eq!(u.get_height(), 6);
    assert!(u.get_cells().is_empty());
}

#[test]
fn v2_random_bytes_on_whole_bytes() {
    let mut u = blank_v2();
    let mut bytes = vec![0u8; 2048];
    bytes[0] = 0b0000_0011;
    bytes[2047] = 0b1000_0000;
    u.apply_random_bytes(bytes);
    assert_eq!(alive_v2(&u), vec![0, 1, 128 * 128 - 1]);
}

#[test]
fn v2_randomize_draws_from_the_system() {
    let mut u = Universe_v2::new();
    u.randomize_state().expect("random source");
    let seeded: Vec<usize> = (0..(128 * 128)).filter(|k| k % 2 == 0 || k % 7 == 0).collect();
    assert_ne!(alive_v2(&u), seeded);
}

#[test]
fn v2_toggle_moves_neighbour_counts_by_one() {
    let mut u = blank_v2();
    u.set_cells(&[(5, 5), (5, 6)]);
    let near = u.get_live_neighbour_count(4, 5);
    let far = u.get_live_neighbour_count(20, 20);
    let wrapped = u.get_live_neighbour_count(0, 0);
    u.toggle(5, 4);
    assert_eq!(u.get_live_neighbour_count(4, 5), near + 1);
    assert_eq!(u.get_live_neighbour_count(20, 20), far);
    u.toggle(5, 5);
    assert_eq!(u.get_live_neighbour_count(4, 5), near);
    u.toggle(127, 127);
    assert_eq!(u.get_live_neighbour_count(0, 0), wrapped + 1);
}

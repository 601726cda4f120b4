use automaton_engine::Universe;

fn cell(blocks: &[u32], k: usize) -> bool {
    (blocks[k / 32] >> (k % 32)) & 1 == 1
}

fn alive(u: &Universe) -> Vec<usize> {
    let n = (u.get_width() * u.get_height()) as usize;
    (0..n).filter(|&k| cell(u.get_cells(), k)).collect()
}

#[test]
fn new_universe_is_seeded() {
    let u = Universe::new();
    assert_eq!(u.get_width(), 128);
    assert_eq!(u.get_height(), 128);
    assert_eq!(u.get_cells().len(), 512);
    for k in 0..(128 * 128) {
        assert_eq!(cell(u.get_cells(), k), k % 2 == 0 || k % 7 == 0);
    }
    assert!(u.get_enabled(0, 0));
    assert!(!u.get_enabled(0, 1));
    assert!(u.get_enabled(0, 7));
}

#[test]
fn neighbour_counts_wrap_around() {
    let u = Universe::new();
    assert_eq!(u.get_live_neighbour_count(0, 0), 2);
    assert_eq!(u.get_live_neighbour_count(1, 1), 6);
    assert_eq!(u.get_live_neighbour_count(5, 3), 6);
}

#[test]
fn new_universe_first_generation() {
    let mut u = Universe::new();
    u.tick_life();
    let cells = alive(&u);
    assert_eq!(cells.len(), 5834);
    assert_eq!(&cells[..7], &[0, 2, 8, 10, 12, 14, 16]);
}

#[test]
fn set_dimensions_clears_everything() {
    let mut u = Universe::new();
    u.set_dimensions(6, 5);
    assert_eq!(u.get_width(), 6);
    assert_eq!(u.get_height(), 5);
    assert_eq!(u.get_cells().len(), 1);
    assert!(alive(&u).is_empty());
}

#[test]
fn index_is_row_major() {
    let mut u = Universe::new();
    u.set_dimensions(6, 6);
    assert_eq!(u.get_index(2, 3), 15);
    assert_eq!(u.get_index_tu((3, 2)), 15);
}

#[test]
fn toggle_flips_one_cell_and_back() {
    let mut u = Universe::new();
    u.set_dimensions(4, 4);
    u.toggle(1, 2);
    assert_eq!(alive(&u), vec![6]);
    u.toggle(1, 2);
    assert!(alive(&u).is_empty());
}

#[test]
fn set_cells_twice_is_once() {
    let mut u = Universe::new();
    u.set_dimensions(4, 4);
    u.set_cells(&[(0, 1), (3, 3)]);
    u.set_cells(&[(0, 1), (3, 3)]);
    assert_eq!(alive(&u), vec![1, 15]);
}

#[test]
fn blinker_oscillates() {
    let mut u = Universe::new();
    u.set_dimensions(5, 5);
    u.set_cells(&[(2, 1), (2, 2), (2, 3)]);
    u.tick_life();
    assert_eq!(alive(&u), vec![7, 12, 17]);
    u.tick_life();
    assert_eq!(alive(&u), vec![11, 12, 13]);
}

#[test]
fn glider_cells_wrap() {
    let mut u = Universe::new();
    u.set_dimensions(6, 6);
    u.insert_glider(2, 2);
    assert_eq!(alive(&u), vec![9, 13, 15, 20, 21]);
    let mut v = Universe::new();
    v.set_dimensions(6, 6);
    v.insert_glider(0, 0);
    assert_eq!(alive(&v), vec![1, 5, 6, 7, 31]);
}

#[test]
fn pulsar_has_period_three() {
    let mut u = Universe::new();
    u.set_dimensions(17, 17);
    u.insert_pulsar(8, 8);
    let start = alive(&u);
    assert_eq!(start.len(), 48);
    u.tick_life();
    assert_eq!(alive(&u).len(), 56);
    u.tick_life();
    u.tick_life();
    assert_eq!(alive(&u), start);
}

#[test]
fn random_bytes_fill_cells_in_order() {
    // 16 cells: a multiple of eight, so the filled buffer comes to the front.
    let mut u = Universe::new();
    u.set_dimensions(4, 4);
    u.apply_random_bytes(vec![0b0000_0101, 0b1000_0000]);
    assert_eq!(alive(&u), vec![0, 2, 15]);
}

#[test]
fn random_bytes_stay_behind_on_a_partial_byte() {
    // 9 cells: the last byte is partial, the buffers swap twice and the
    // front is unchanged.
    let mut u = Universe::new();
    u.set_dimensions(3, 3);
    u.set_cells(&[(1, 1)]);
    u.apply_random_bytes(vec![0xff, 0xff]);
    assert_eq!(alive(&u), vec![4]);
}

#[test]
fn randomize_draws_from_the_system() {
    let mut u = Universe::new();
    u.randomize_state().expect("random source");
    assert_eq!(u.get_width(), 128);
    let seeded: Vec<usize> = (0..(128 * 128)).filter(|k| k % 2 == 0 || k % 7 == 0).collect();
    assert_ne!(alive(&u), seeded);
}

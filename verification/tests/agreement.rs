use automaton_engine::{CellState, Universe, Universe_v2};

fn same_cells(u: &Universe, v: &Universe_v2) -> bool {
    (0..128u32).all(|r| (0..128u32).all(|c| u.get_enabled(r, c) == (v.get_enabled(r, c) == CellState::Alive)))
}

#[test]
fn both_universes_evolve_alike() {
    let mut u = Universe::new();
    let mut v = Universe_v2::new();
    assert!(same_cells(&u, &v));
    u.tick_life();
    v.tick_life();
    assert!(same_cells(&u, &v));
    u.toggle(3, 4);
    v.toggle(3, 4);
    u.set_cells(&[(10, 10), (11, 12)]);
    v.set_cells(&[(10, 10), (11, 12)]);
    u.insert_glider(0, 127);
    v.insert_glider(0, 127);
    u.insert_pulsar(64, 2);
    v.insert_pulsar(64, 2);
    assert!(same_cells(&u, &v));
    for _ in 0..4 {
        u.tick_life();
        v.tick_life();
    }
    assert!(same_cells(&u, &v));
}

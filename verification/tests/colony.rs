use automata::game_of_life::Colony;

#[test]
fn colony_starts_dead_and_counts_zero() {
    let g = Colony::new(5, 5);
    assert_eq!(g.count(), 0);
    for i in 0..5 {
        for j in 0..5 {
            assert!(!g.alive(i, j));
        }
    }
}

#[test]
fn colony_block_is_a_still_life() {
    let mut g = Colony::new(5, 5);
    g.init_cells(&vec![(1, 1), (1, 2), (2, 1), (2, 2)]);
    assert_eq!(g.count(), 4);
    for _ in 0..5 {
        g.next();
        assert_eq!(g.count(), 4);
        assert_eq!(g.births(), 0);
        assert_eq!(g.deaths(), 0);
    }
    assert!(g.alive(1, 1) && g.alive(1, 2) && g.alive(2, 1) && g.alive(2, 2));
}

#[test]
fn colony_blinker_oscillates() {
    let mut g = Colony::new(5, 5);
    g.init_cells(&vec![(1, 2), (2, 2), (3, 2)]);
    g.next();
    // the vertical bar becomes a horizontal one
    assert!(g.alive(2, 1) && g.alive(2, 2) && g.alive(2, 3));
    assert!(!g.alive(1, 2) && !g.alive(3, 2));
    assert_eq!(g.births(), 2);
    assert_eq!(g.deaths(), 2);
    assert_eq!(g.count(), 3);
    g.next();
    // and back
    assert!(g.alive(1, 2) && g.alive(2, 2) && g.alive(3, 2));
    assert_eq!(g.count(), 3);
}

#[test]
fn lone_cell_dies_of_isolation() {
    let mut g = Colony::new(4, 4);
    g.init_cells(&vec![(1, 1)]);
    assert_eq!(g.count(), 1);
    g.next();
    assert_eq!(g.count(), 0);
    assert_eq!(g.deaths(), 1);
}

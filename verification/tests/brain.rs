use automata::brain::{Brain, State};

#[test]
fn state_cycles_ready_firing_dying() {
    assert_eq!(State::Ready.next(), State::Firing);
    assert_eq!(State::Firing.next(), State::Dying);
    assert_eq!(State::Dying.next(), State::Ready);
}

#[test]
fn firing_cell_always_dies_then_readies() {
    let mut b = Brain::new(5, 5);
    b.init_cells(&vec![(0, 0)]);
    assert_eq!(b.state(0, 0), State::Firing);
    b.next();
    // dying regardless of neighbors
    assert_eq!(b.state(0, 0), State::Dying);
    b.next();
    assert_eq!(b.state(0, 0), State::Ready);
}

#[test]
fn ready_cell_fires_exactly_on_two_firing_neighbors() {
    let mut b = Brain::new(6, 6);
    b.init_cells(&vec![(2, 2), (2, 3)]);
    b.next();
    // cells adjacent to both firing cells fire
    assert_eq!(b.state(1, 2), State::Firing);
    assert_eq!(b.state(1, 3), State::Firing);
    assert_eq!(b.state(3, 2), State::Firing);
    assert_eq!(b.state(3, 3), State::Firing);
    // cells seeing only one stay ready
    assert_eq!(b.state(2, 1), State::Ready);
    assert_eq!(b.state(1, 1), State::Ready);
    // the two seeded cells are dying
    assert_eq!(b.state(2, 2), State::Dying);
    assert_eq!(b.state(2, 3), State::Dying);
    assert_eq!(b.fired(), 4);
}

#[test]
fn quiet_brain_stays_quiet() {
    let mut b = Brain::new(4, 4);
    b.next();
    assert_eq!(b.fired(), 0);
    for i in 0..4 {
        for j in 0..4 {
            assert_eq!(b.state(i, j), State::Ready);
        }
    }
}

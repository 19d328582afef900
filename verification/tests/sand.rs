use automata::sandpile::Sandpile;

#[test]
fn subcritical_mass_never_queues_and_stabilize_is_a_no_op() {
    let mut s = Sandpile::new(4, 4);
    s.add(1, 1, 3);
    s.add(2, 2, 2);
    assert_eq!(s.pending(), 0);
    s.stabilize();
    assert_eq!(s.grains(1, 1), 3);
    assert_eq!(s.grains(2, 2), 2);
    assert_eq!(s.workload(), 0);
}

#[test]
fn one_topple_transfers_quarter_height_to_each_neighbor() {
    let mut s = Sandpile::new(5, 5);
    s.add(2, 2, 5);
    assert_eq!(s.pending(), 1);
    s.stabilize();
    // fall = 5 div 4 = 1: one grain to each of the four neighbors
    assert_eq!(s.grains(2, 2), 1);
    assert_eq!(s.grains(1, 2), 1);
    assert_eq!(s.grains(3, 2), 1);
    assert_eq!(s.grains(2, 1), 1);
    assert_eq!(s.grains(2, 3), 1);
    assert_eq!(s.workload(), 1);
    assert_eq!(s.pending(), 0);
}

#[test]
fn corner_topple_loses_grains_over_the_edge() {
    let mut s = Sandpile::new(3, 3);
    s.add(0, 0, 4);
    s.stabilize();
    assert_eq!(s.grains(0, 0), 0);
    assert_eq!(s.grains(0, 1), 1);
    assert_eq!(s.grains(1, 0), 1);
    // two of the four grains fell off the open boundary
    let total: usize = (0..3).flat_map(|i| (0..3).map(move |j| (i, j)))
        .map(|(i, j)| s.grains(i, j))
        .sum();
    assert_eq!(total, 2);
}

#[test]
fn single_row_topple() {
    let mut s = Sandpile::new(1, 5);
    s.add(0, 2, 8);
    s.stabilize();
    assert_eq!(s.grains(0, 2), 0);
    assert_eq!(s.grains(0, 1), 2);
    assert_eq!(s.grains(0, 3), 2);
    assert_eq!(s.grains(0, 0), 0);
    assert_eq!(s.grains(0, 4), 0);
}

#[test]
fn final_heights_do_not_depend_on_the_order_of_additions() {
    let ops = [(2usize, 2usize, 8usize), (2, 3, 8), (3, 2, 5), (1, 2, 7)];

    let mut a = Sandpile::new(6, 6);
    for &(i, j, n) in ops.iter() {
        a.add(i, j, n);
    }
    a.stabilize();

    let mut b = Sandpile::new(6, 6);
    for &(i, j, n) in ops.iter().rev() {
        b.add(i, j, n);
        // stabilizing between additions must not change the outcome
        b.stabilize();
    }
    b.stabilize();

    for i in 0..6 {
        for j in 0..6 {
            assert_eq!(a.grains(i, j), b.grains(i, j));
        }
    }
}

#[test]
fn workload_counter_resets() {
    let mut s = Sandpile::new(3, 3);
    s.add(1, 1, 9);
    s.stabilize();
    assert!(s.workload() > 0);
    s.reset_workload();
    assert_eq!(s.workload(), 0);
}

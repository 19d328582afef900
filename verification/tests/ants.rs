use automata::langton::{Dir, Langton};
use automata::turmite::{rules_2, Dir as TDir, Mound};

#[test]
fn langton_first_steps_follow_the_classic_table() {
    let mut l = Langton::new(5, 5);
    l.add_ant((2, 2), Dir::N);
    l.next();
    // blank cell: mark it, turn left from north to west, move west
    assert_eq!(l.mark(2, 2), 1);
    let a = l.ant(0);
    assert_eq!(a.pos, (2, 1));
    assert_eq!(a.dir, Dir::W);
    l.next();
    assert_eq!(l.mark(2, 1), 1);
    let a = l.ant(0);
    assert_eq!(a.pos, (3, 1));
    assert_eq!(a.dir, Dir::S);
}

#[test]
fn langton_revisiting_a_mark_turns_right_and_clears() {
    let mut l = Langton::new(3, 3);
    l.add_ant((1, 1), Dir::N);
    // after four steps the ant has walked a small loop back onto its trail
    l.multi(4);
    assert_eq!(l.steps(), 4);
    // walk until it stands on a marked cell, then watch one step
    for _ in 0..10 {
        let a = l.ant(0);
        if l.mark(a.pos.0, a.pos.1) == 1 {
            let before = l.ant(0);
            l.next();
            assert_eq!(l.mark(before.pos.0, before.pos.1), 0);
            return;
        }
        l.next();
    }
    panic!("the ant never revisited its trail");
}

#[test]
fn langton_highway_emerges_with_period_104() {
    let mut l = Langton::new(512, 512);
    l.add_ant((256, 256), Dir::N);
    l.multi(10000);
    let a1 = l.ant(0);
    l.multi(104);
    let a2 = l.ant(0);
    // on the highway the ant repeats its gait every 104 steps, moving two
    // cells diagonally
    let di = (a2.pos.0 as i64 - a1.pos.0 as i64).abs();
    let dj = (a2.pos.1 as i64 - a1.pos.1 as i64).abs();
    assert_eq!(di, 2);
    assert_eq!(dj, 2);
    assert_eq!(a1.dir, a2.dir);
}

#[test]
fn turmite_first_table_matches_langton() {
    let mut m = Mound::new(5, 5, rules_2());
    m.add((2, 2), TDir::N, 0);
    m.next();
    assert_eq!(m.mark(2, 2), 1);
    let a = m.ant(0);
    assert_eq!(a.pos, (2, 1));
    assert_eq!(a.dir, TDir::W);
}

#[test]
fn turmite_second_table_mirrors_the_first() {
    let mut m = Mound::new(5, 5, rules_2());
    m.add((2, 2), TDir::N, 1);
    m.next();
    assert_eq!(m.mark(2, 2), 1);
    let a = m.ant(0);
    assert_eq!(a.pos, (2, 3));
    assert_eq!(a.dir, TDir::E);
}

#[test]
fn turmites_act_in_order_within_one_step() {
    let mut m = Mound::new(5, 5, rules_2());
    m.add((2, 2), TDir::N, 0);
    m.add((2, 2), TDir::N, 0);
    m.next();
    // the first ant marked the cell and left west; the second then read the
    // fresh mark, cleared it, and turned right instead
    assert_eq!(m.mark(2, 2), 0);
    let a = m.ant(0);
    let b = m.ant(1);
    assert_eq!(a.pos, (2, 1));
    assert_eq!(a.dir, TDir::W);
    assert_eq!(b.pos, (2, 3));
    assert_eq!(b.dir, TDir::E);
}

#[test]
fn random_turmite_lands_in_the_requested_rectangle() {
    let mut m = Mound::new(6, 6, rules_2());
    // a one-cell rectangle pins the drawn position exactly
    m.add_rand((3, 4), (2, 3), Some(1));
    let a = m.ant(0);
    assert_eq!(a.pos, (3, 2));
    assert_eq!(a.rules, 1);
    m.add_rand((0, 6), (0, 6), None);
    let b = m.ant(1);
    assert!(b.pos.0 < 6 && b.pos.1 < 6);
    assert!(b.rules < 2);
}

#[test]
fn random_ant_lands_on_the_grid() {
    let mut l = Langton::new(1, 1);
    l.add_rand_ant();
    assert_eq!(l.ant(0).pos, (0, 0));
}

#[test]
fn turmite_multi_counts_steps() {
    let mut m = Mound::new(4, 4, rules_2());
    m.add((1, 1), TDir::E, 0);
    m.multi(7);
    assert_eq!(m.steps(), 7);
    assert_eq!(m.ant_count(), 1);
}

use automata::lifelike::{LifeLike, Rotate, Rules, Transform};

fn upright() -> Transform {
    Transform { rot: Rotate::Upright, mirror: false }
}

#[test]
fn rule_parsing_accepts_well_formed_descriptions() {
    assert!(Rules::new("3-23").is_some());
    assert!(Rules::new("-").is_some());
    assert!(Rules::new("2-").is_some());
    assert!(Rules::new("3-012345678").is_some());
}

#[test]
fn rule_parsing_rejects_malformed_descriptions() {
    assert!(Rules::new("").is_none());
    assert!(Rules::new("323").is_none());
    assert!(Rules::new("3-2-3").is_none());
    assert!(Rules::new("39-23").is_none());
    assert!(Rules::new("3-2a").is_none());
    assert!(Rules::new("3 23").is_none());
}

#[test]
fn new_colony_fails_only_on_bad_rules() {
    assert!(LifeLike::new(5, 5, "3-23").is_some());
    assert!(LifeLike::new(5, 5, "not a rule").is_none());
}

#[test]
fn block_is_a_still_life_under_standard_rules() {
    let mut g = LifeLike::new(6, 6, "3-23").unwrap();
    assert!(g.add_pattern(&b"xx\nxx".to_vec(), 2, 2, upright()));
    assert_eq!(g.count(), 4);
    for _ in 0..6 {
        g.next();
        assert_eq!(g.count(), 4);
        assert_eq!(g.births(), 0);
        assert_eq!(g.deaths(), 0);
        assert!(g.alive(2, 2) && g.alive(2, 3) && g.alive(3, 2) && g.alive(3, 3));
    }
}

#[test]
fn glider_translates_by_one_cell_each_four_steps() {
    let mut g = LifeLike::new(10, 10, "3-23").unwrap();
    assert!(g.add_pattern(&b".x.\n..x\nxxx".to_vec(), 1, 1, upright()));
    assert_eq!(g.count(), 5);
    for _ in 0..4 {
        g.next();
    }
    // the same shape, shifted one row down and one column right
    assert_eq!(g.count(), 5);
    assert!(g.alive(2, 3));
    assert!(g.alive(3, 4));
    assert!(g.alive(4, 2));
    assert!(g.alive(4, 3));
    assert!(g.alive(4, 4));
    for i in 0..10 {
        for j in 0..10 {
            let expected = matches!((i, j), (2, 3) | (3, 4) | (4, 2) | (4, 3) | (4, 4));
            assert_eq!(g.alive(i, j), expected);
        }
    }
}

#[test]
fn seeds_rule_kills_parents_and_births_pairs() {
    let mut g = LifeLike::new(7, 7, "2-").unwrap();
    g.init_cells(&vec![(2, 2), (2, 3)]);
    assert_eq!(g.count(), 2);
    g.next();
    // the two parents die (no survival counts at all)
    assert!(!g.alive(2, 2) && !g.alive(2, 3));
    // a dead cell seeing both parents is born
    assert!(g.alive(1, 2));
    assert!(g.alive(3, 3));
}

#[test]
fn malformed_pattern_is_rejected_whole() {
    let mut g = LifeLike::new(6, 6, "3-23").unwrap();
    assert!(!g.add_pattern(&b"xx\nxq".to_vec(), 1, 1, upright()));
    assert_eq!(g.count(), 0);
    for i in 0..6 {
        for j in 0..6 {
            assert!(!g.alive(i, j));
        }
    }
}

#[test]
fn pattern_spaces_skip_cells_and_wrap_applies() {
    let mut g = LifeLike::new(4, 4, "3-23").unwrap();
    // a space leaves the cell untouched; coordinates wrap around the edge
    assert!(g.add_pattern(&b"x x".to_vec(), -1, -1, upright()));
    assert!(g.alive(3, 3));
    assert!(!g.alive(3, 0));
    assert!(g.alive(3, 1));
    assert_eq!(g.count(), 2);
}

#[test]
fn rotated_pattern_advances_along_the_other_axis() {
    // Rotate::Right advances the row index per character
    let mut g = LifeLike::new(6, 6, "3-23").unwrap();
    assert!(g.add_pattern(&b"xx".to_vec(), 1, 1, Transform { rot: Rotate::Right, mirror: false }));
    assert!(g.alive(1, 1));
    assert!(g.alive(2, 1));
    assert_eq!(g.count(), 2);
}

#[test]
fn mirrored_pattern_runs_columns_backwards() {
    let mut g = LifeLike::new(6, 6, "3-23").unwrap();
    assert!(g.add_pattern(&b"xx".to_vec(), 2, 2, Transform { rot: Rotate::Upright, mirror: true }));
    assert!(g.alive(2, 2));
    assert!(g.alive(2, 1));
    assert_eq!(g.count(), 2);
}

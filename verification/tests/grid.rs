use automata::canvas::{mod_idx, Canvas};
use automata::lifelike::Cell;

#[test]
fn wrap_negative_one_maps_to_last_index() {
    assert_eq!(mod_idx(-1, 5), 4);
    assert_eq!(mod_idx(-1, 1), 0);
    assert_eq!(mod_idx(-1, 100), 99);
}

#[test]
fn wrap_stays_in_range_and_is_periodic() {
    for k in -20isize..20 {
        let r = mod_idx(k, 7);
        assert!(r < 7);
        assert_eq!(r, mod_idx(k + 7, 7));
        assert_eq!(r, mod_idx(k - 7, 7));
    }
}

#[test]
fn wrap_examples() {
    assert_eq!(mod_idx(7, 5), 2);
    assert_eq!(mod_idx(-13, 5), 2);
    assert_eq!(mod_idx(0, 3), 0);
    assert_eq!(mod_idx(3, 3), 0);
}

#[test]
fn canvas_get_set_and_wrapping() {
    let mut c: Canvas<Cell> = Canvas::new(3, 4, Cell::new());
    assert!(!c.get(2, 3).curr);
    c.set(2, 3, Cell { curr: true, succ: true });
    assert!(c.get(2, 3).curr);
    // a wrapped read of (-1, -1) lands on the last cell
    assert!(c.mod_get(-1, -1).curr);
    assert_eq!(c.mod_idx(-1, -1), (2, 3));
    assert_eq!(c.mod_idx(3, 4), (0, 0));
}

#[test]
fn ppm_text_of_a_tiny_canvas() {
    let mut c: Canvas<Cell> = Canvas::new(1, 2, Cell::new());
    assert_eq!(c.render_string(), "P3\n2 1\n25\n0 0 0 0 0 0 ");
    c.set(0, 0, Cell { curr: true, succ: true });
    assert_eq!(c.render_string(), "P3\n2 1\n25\n25 25 25 0 0 0 ");
}

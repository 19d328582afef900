use automata::config::{Automaton, Config};
use automata::turmite::rules_2;

#[test]
fn automaton_tags() {
    assert_eq!(Automaton::Sandpile.str(), "sand");
    assert_eq!(Automaton::Brain.str(), "brain");
    assert_eq!(Automaton::LifeLike("3-23".to_string()).str(), "life-3-23");
    assert_eq!(Automaton::Turmite(rules_2()).str(), "turmite");
}

#[test]
fn zero_padding() {
    assert_eq!(Config::lpad(7, 5), "00007");
    assert_eq!(Config::lpad(0, 5), "00000");
    assert_eq!(Config::lpad(12345, 5), "12345");
    assert_eq!(Config::lpad(123456, 5), "123456");
}

#[test]
fn directory_and_file_names() {
    let cfg = Config::new(Automaton::LifeLike("3-23".to_string()), "breeder".to_string(), 25);
    assert_eq!(cfg.dir(), ".life-3-23_breeder");
    assert_eq!(cfg.file(), "life-3-23_breeder.avi");
}

#[test]
fn frame_names_count_up() {
    let mut cfg = Config::new(Automaton::Brain, "run".to_string(), 25);
    assert_eq!(cfg.frame(), ".brain_run/out-00000.ppm");
    assert_eq!(cfg.frame(), ".brain_run/out-00001.ppm");
    assert_eq!(cfg.frame(), ".brain_run/out-00002.ppm");
    assert_eq!(cfg.framerate(), 25);
}

#[test]
fn rendered_frames_carry_the_image_header() {
    let b = automata::brain::Brain::new(2, 3);
    let text = b.render_text();
    assert!(text.starts_with("P3\n3 2\n25\n"));
    assert_eq!(text, "P3\n3 2\n25\n0 0 0 0 0 0 0 0 0 0 0 0 0 0 0 0 0 0 ");
}

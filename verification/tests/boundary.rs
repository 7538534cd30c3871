use box_stacks::notation::parse_input;
use box_stacks::{gen, get_max_turn, vis};

fn fills(n: usize) -> Vec<String> {
    (0..=n).map(|v| format!("#ff{:04x}", v)).collect()
}

const SMALL: &str = "4 2\n1 3\n2 4\n";

#[test]
fn text_of_a_drawn_instance() {
    let text = gen(0);
    assert!(text.starts_with("200 10\n"));
    assert!(text.ends_with('\n'));
    assert_eq!(text.lines().count(), 11);
    let input = parse_input(&text).unwrap();
    assert_eq!(input.n, 200);
    assert_eq!(input.m, 10);
    assert_eq!(input.to_string(), text);
}

#[test]
fn text_of_the_same_seed() {
    assert_eq!(gen(17), gen(17));
    assert_ne!(gen(17), gen(18));
}

#[test]
fn seed_below_zero_counts_down() {
    assert_eq!(gen(-1), box_stacks::input::gen(u64::MAX).to_string());
    assert_eq!(gen(-5), box_stacks::input::gen(u64::MAX - 4).to_string());
    assert_eq!(gen(i32::MIN), box_stacks::input::gen(u64::MAX - 2147483647).to_string());
    assert_eq!(gen(9), box_stacks::input::gen(9).to_string());
    assert_eq!(gen(i32::MAX), box_stacks::input::gen(2147483647).to_string());
}

#[test]
fn shows_a_replay() {
    let r = vis(SMALL.to_string(), "3 2 1 0".to_string(), 1, &fills(4));
    assert_eq!(r.score, 9998);
    assert_eq!(r.err, "Not finished (0 / 4)");
    assert!(r.svg.starts_with("<svg "));
    assert!(r.svg.ends_with("\n</svg>"));
    assert!(r.svg.contains("<rect fill=\"#ff0003\" height=\"200\" stroke-width=\"1\" width=\"398\" x=\"401\" y=\"200\"/>"));
    assert_eq!(r.svg.matches("<rect ").count(), 4);
    let r = vis(SMALL.to_string(), "3 2 1 0".to_string(), 2, &fills(4));
    assert_eq!(r.score, 9998);
    assert_eq!(r.err, "Not finished (1 / 4)");
    assert_eq!(r.svg.matches("<rect ").count(), 3);
}

#[test]
fn shows_the_same_as_the_parts() {
    let input = parse_input(SMALL).unwrap();
    let output = box_stacks::output::parse_output(&input, "3 2 1 0 3 1").unwrap();
    for turn in 0..5 {
        let r = vis(SMALL.to_string(), "3 2 1 0 3 1".to_string(), turn, &fills(4));
        let (score, err, svg) = box_stacks::render::vis(&input, &output, turn, &fills(4));
        assert_eq!((r.score, r.err, r.svg), (score, err, svg));
    }
}

#[test]
fn shows_a_refused_move() {
    let r = vis(SMALL.to_string(), "1 0".to_string(), 5, &fills(4));
    assert_eq!(r.score, 0);
    assert_eq!(r.err, "Box 1 is not at the top of the stack.");
    assert_eq!(r.svg.matches("<rect ").count(), 4);
}

#[test]
fn solution_that_cannot_be_read_gives_no_picture() {
    let r = vis(SMALL.to_string(), "3 x".to_string(), 1, &fills(4));
    assert_eq!(r.score, 0);
    assert_eq!(r.err, "Parse error: x");
    assert_eq!(r.svg, "");
    let r = vis(SMALL.to_string(), "3".to_string(), 1, &fills(4));
    assert_eq!((r.score, r.err.as_str(), r.svg.as_str()), (0, "Unexpected EOF", ""));
    let r = vis(SMALL.to_string(), "3 7".to_string(), 1, &fills(4));
    assert_eq!((r.score, r.err.as_str(), r.svg.as_str()), (0, "Out of range: 7", ""));
    let r = vis(SMALL.to_string(), "1 1 ".repeat(5001), 1, &fills(4));
    assert_eq!((r.score, r.err.as_str(), r.svg.as_str()), (0, "Too many output", ""));
}

#[test]
fn instance_that_cannot_be_read_gives_no_picture() {
    let r = vis("4 2 1 3 2".to_string(), "3 2".to_string(), 1, &fills(4));
    assert_eq!((r.score, r.err.as_str(), r.svg.as_str()), (0, "Unexpected EOF", ""));
    let r = vis("4 2 1 1 2 3".to_string(), "3 2".to_string(), 1, &fills(4));
    assert_eq!((r.score, r.err.as_str(), r.svg.as_str()), (0, "Duplicate box: 1", ""));
}

#[test]
fn no_picture_without_the_colours() {
    let r = vis(SMALL.to_string(), "3 2".to_string(), 1, &fills(3));
    assert_eq!(r.score, 9998);
    assert_eq!(r.err, "Not finished (0 / 4)");
    assert_eq!(r.svg, "");
}

#[test]
fn no_picture_without_boxes() {
    let r = vis("0 2".to_string(), "".to_string(), 1, &fills(0));
    assert_eq!(r.score, 10000);
    assert_eq!(r.err, "");
    assert_eq!(r.svg, "");
}

#[test]
fn most_turns_are_the_moves_written() {
    assert_eq!(get_max_turn(SMALL.to_string(), "".to_string()), 0);
    assert_eq!(get_max_turn(SMALL.to_string(), "3 2".to_string()), 1);
    assert_eq!(get_max_turn(SMALL.to_string(), "3 2 1 0 3 1".to_string()), 3);
    assert_eq!(get_max_turn(SMALL.to_string(), "1 1 ".repeat(5000)), 5000);
}

#[test]
fn most_turns_do_not_ask_whether_moves_can_be_made() {
    assert_eq!(get_max_turn(SMALL.to_string(), "1 0 1 0 4 0 2 0".to_string()), 4);
}

#[test]
fn most_turns_of_what_cannot_be_read() {
    assert_eq!(get_max_turn(SMALL.to_string(), "3 2 1".to_string()), 0);
    assert_eq!(get_max_turn(SMALL.to_string(), "3 2 1 x".to_string()), 0);
    assert_eq!(get_max_turn(SMALL.to_string(), "3 2 5 0".to_string()), 0);
    assert_eq!(get_max_turn(SMALL.to_string(), "1 1 ".repeat(5001)), 0);
    assert_eq!(get_max_turn("4 2 1 3".to_string(), "3 2".to_string()), 0);
}

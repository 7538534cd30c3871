use box_stacks::input::Input;
use box_stacks::markup::{circle, group, rect, txt};
use box_stacks::output::Output;
use box_stacks::render::{draw, vis};

const HEAD: &str = "<svg height=\"810\" id=\"vis\" style=\"background-color:white\" viewBox=\"-5 -5 810 810\" width=\"810\" xmlns=\"http://www.w3.org/2000/svg\">";

fn style(size: usize) -> String {
    format!(
        "<style>\ntext {{text-anchor: middle;dominant-baseline: central; font-size: {}}}\n</style>",
        size
    )
}

fn cell(x: usize, y: usize, w: usize, h: usize, fill: &str, tx: usize, ty: usize, v: usize) -> String {
    format!(
        "<rect fill=\"{}\" height=\"{}\" stroke-width=\"1\" width=\"{}\" x=\"{}\" y=\"{}\"/>\n<text dominant-baseline=\"central\" fill=\"black\" font-size=\"20\" text-anchor=\"middle\" x=\"{}\" y=\"{}\">\n{}\n</text>",
        fill, h, w, x, y, tx, ty, v
    )
}

fn fills(n: usize) -> Vec<String> {
    (0..=n).map(|v| format!("#0000{:02x}", v)).collect()
}

fn small() -> Input {
    Input { n: 4, m: 2, bs: vec![vec![1, 3], vec![2, 4]] }
}

#[test]
fn rectangle_element() {
    assert_eq!(
        rect(3, 40, 500, 6, "#1e90ff").to_string(),
        "<rect fill=\"#1e90ff\" height=\"6\" stroke-width=\"1\" width=\"500\" x=\"3\" y=\"40\"/>"
    );
}

#[test]
fn label_element() {
    assert_eq!(
        txt(12, 0, "17").to_string(),
        "<text dominant-baseline=\"central\" fill=\"black\" font-size=\"20\" text-anchor=\"middle\" x=\"12\" y=\"0\">\n17\n</text>"
    );
}

#[test]
fn ring_element() {
    assert_eq!(
        circle(10, 20, 5, "red").to_string(),
        "<circle cx=\"10\" cy=\"20\" fill=\"transparent\" r=\"5\" stroke=\"red\" stroke-width=\"3\"/>"
    );
}

#[test]
fn stroke_element() {
    assert_eq!(
        box_stacks::markup::line(1, 2, 30, 44, "black").to_string(),
        "<line stroke=\"black\" stroke-linecap=\"round\" stroke-width=\"3\" x1=\"1\" x2=\"30\" y1=\"2\" y2=\"44\"/>"
    );
}

#[test]
fn group_element() {
    assert_eq!(group("turn 3".to_string()).to_string(), "<g>\n<title>\nturn 3\n</title>\n</g>");
}

#[test]
fn picture_of_the_small_instance() {
    let input = small();
    let svg = draw(&input, &input.bs, &fills(4));
    let expected = [
        HEAD.to_string(),
        style(16),
        cell(1, 600, 398, 200, "#000001", 200, 700, 1),
        cell(1, 400, 398, 200, "#000003", 200, 500, 3),
        cell(401, 600, 398, 200, "#000002", 600, 700, 2),
        cell(401, 400, 398, 200, "#000004", 600, 500, 4),
        "</svg>".to_string(),
    ]
    .join("\n");
    assert_eq!(svg, expected);
}

#[test]
fn picture_grows_with_the_tallest_stack() {
    let input = Input { n: 6, m: 3, bs: vec![vec![1, 2], vec![3, 4], vec![5, 6]] };
    let bs = vec![vec![], vec![3, 4, 5, 6, 1], vec![2]];
    let svg = draw(&input, &bs, &fills(6));
    // five rows of 160, three stacks of 266, letters of 32 * 6 / 3 / 5
    let expected = [
        HEAD.to_string(),
        style(12),
        cell(267, 640, 264, 160, "#000003", 399, 720, 3),
        cell(267, 480, 264, 160, "#000004", 399, 560, 4),
        cell(267, 320, 264, 160, "#000005", 399, 400, 5),
        cell(267, 160, 264, 160, "#000006", 399, 240, 6),
        cell(267, 0, 264, 160, "#000001", 399, 80, 1),
        cell(533, 640, 264, 160, "#000002", 665, 720, 2),
        "</svg>".to_string(),
    ]
    .join("\n");
    assert_eq!(svg, expected);
}

#[test]
fn picture_without_boxes_left() {
    let input = Input { n: 2, m: 1, bs: vec![vec![2, 1]] };
    let svg = draw(&input, &vec![vec![]], &fills(2));
    assert_eq!(svg, [HEAD.to_string(), style(16), "</svg>".to_string()].join("\n"));
}

#[test]
fn picture_of_many_low_stacks() {
    let input = Input { n: 400, m: 400, bs: (1..=400).map(|v| vec![v]).collect() };
    let svg = draw(&input, &input.bs, &fills(400));
    assert!(svg.starts_with(&[HEAD.to_string(), style(16), cell(1, 400, 0, 400, "#000001", 1, 600, 1)].join("\n")));
    assert!(svg.ends_with(&format!("{}\n</svg>", cell(799, 400, 0, 400, "#0000190", 799, 600, 400))));
}

#[test]
fn replay_and_picture() {
    let input = small();
    let output = Output { out: vec![(3, 2), (1, 0), (4, 1)] };
    let (score, err, svg) = vis(&input, &output, 2, &fills(4));
    assert_eq!(score, 9998);
    assert_eq!(err, "Not finished (1 / 4)");
    let expected = [
        HEAD.to_string(),
        style(16),
        cell(401, 600, 398, 200, "#000002", 600, 700, 2),
        cell(401, 400, 398, 200, "#000004", 600, 500, 4),
        cell(401, 200, 398, 200, "#000003", 600, 300, 3),
        "</svg>".to_string(),
    ]
    .join("\n");
    assert_eq!(svg, expected);
}

#[test]
fn picture_of_a_refused_replay() {
    let input = small();
    let output = Output { out: vec![(3, 2), (2, 0), (1, 0)] };
    let (score, err, svg) = vis(&input, &output, 3, &fills(4));
    assert_eq!(score, 0);
    assert_eq!(err, "Box 2 is not at the top of the stack.");
    let expected = [
        HEAD.to_string(),
        style(16),
        cell(1, 600, 398, 200, "#000001", 200, 700, 1),
        cell(401, 600, 398, 200, "#000002", 600, 700, 2),
        cell(401, 400, 398, 200, "#000004", 600, 500, 4),
        cell(401, 200, 398, 200, "#000003", 600, 300, 3),
        "</svg>".to_string(),
    ]
    .join("\n");
    assert_eq!(svg, expected);
}

#[test]
fn picture_at_turn_zero_is_the_instance() {
    let input = small();
    let output = Output { out: vec![(3, 2)] };
    let (score, err, svg) = vis(&input, &output, 0, &fills(4));
    assert_eq!(score, 10000);
    assert_eq!(err, "Not finished (0 / 4)");
    assert_eq!(svg, draw(&input, &input.bs, &fills(4)));
}

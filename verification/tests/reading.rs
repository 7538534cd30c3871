use box_stacks::input::Input;
use box_stacks::notation::parse_input;
use box_stacks::output::{parse_output, read};
use box_stacks::text::{decimal_string, parse_number, split_tokens};

fn small() -> Input {
    Input { n: 4, m: 2, bs: vec![vec![1, 3], vec![2, 4]] }
}

fn moves_of(text: &str) -> Result<Vec<(usize, usize)>, String> {
    parse_output(&small(), text).map(|o| o.out)
}

#[test]
fn decimal_numerals() {
    assert_eq!(decimal_string(0), "0");
    assert_eq!(decimal_string(7), "7");
    assert_eq!(decimal_string(10), "10");
    assert_eq!(decimal_string(200), "200");
    assert_eq!(decimal_string(9041), "9041");
    assert_eq!(decimal_string(usize::MAX), usize::MAX.to_string());
}

#[test]
fn tokens_are_parted_by_white_space() {
    assert_eq!(split_tokens(""), Vec::<String>::new());
    assert_eq!(split_tokens("  \n\t "), Vec::<String>::new());
    assert_eq!(split_tokens("a"), vec!["a"]);
    assert_eq!(split_tokens(" 12  3\n4\r\n5\t"), vec!["12", "3", "4", "5"]);
    assert_eq!(split_tokens("x\u{3000}y\u{85}z\u{a0}w\u{2003}v"), vec!["x", "y", "z", "w", "v"]);
    assert_eq!(split_tokens("a\u{200b}b"), vec!["a\u{200b}b"]);
}

#[test]
fn tokens_as_std_splits_them() {
    for text in ["", " ", "1 2 3", "\u{1680}q\u{2028}r\u{2029}s\u{202f}t\u{205f}u", "a\u{b}b\u{c}c", "é ü\n"] {
        let expected: Vec<String> = text.split_whitespace().map(|t| t.to_string()).collect();
        assert_eq!(split_tokens(text), expected);
    }
}

#[test]
fn numbers_are_read_as_std_reads_them() {
    assert_eq!(parse_number("0"), Some(0));
    assert_eq!(parse_number("007"), Some(7));
    assert_eq!(parse_number("+15"), Some(15));
    assert_eq!(parse_number("200"), Some(200));
    assert_eq!(parse_number(""), None);
    assert_eq!(parse_number("+"), None);
    assert_eq!(parse_number("-3"), None);
    assert_eq!(parse_number("-0"), None);
    assert_eq!(parse_number("++1"), None);
    assert_eq!(parse_number("1+"), None);
    assert_eq!(parse_number("12a"), None);
    assert_eq!(parse_number("1.5"), None);
    assert_eq!(parse_number("１２"), None);
    let most = usize::MAX.to_string();
    assert_eq!(parse_number(&most), Some(usize::MAX));
    assert_eq!(parse_number(&format!("{}0", most)), None);
    assert_eq!(parse_number("18446744073709551616"), "18446744073709551616".parse::<usize>().ok());
    assert_eq!(parse_number("99999999999999999999999999"), None);
}

#[test]
fn read_a_number_in_range() {
    assert_eq!(read(Some("3"), 1, 4), Ok(3));
    assert_eq!(read(Some("1"), 1, 4), Ok(1));
    assert_eq!(read(Some("4"), 1, 4), Ok(4));
    assert_eq!(read(Some("0"), 0, 2), Ok(0));
}

#[test]
fn read_tells_what_is_wrong() {
    assert_eq!(read(None, 1, 4), Err("Unexpected EOF".to_string()));
    assert_eq!(read(Some("x1"), 1, 4), Err("Parse error: x1".to_string()));
    assert_eq!(read(Some("5"), 1, 4), Err("Out of range: 5".to_string()));
    assert_eq!(read(Some("0"), 1, 4), Err("Out of range: 0".to_string()));
    assert_eq!(read(Some("+007"), 1, 4), Err("Out of range: 7".to_string()));
    assert_eq!(read(Some("2"), 3, 1), Err("Out of range: 2".to_string()));
}

#[test]
fn solution_is_read_two_by_two() {
    assert_eq!(moves_of("1 0 2 1\n4 2"), Ok(vec![(1, 0), (2, 1), (4, 2)]));
    assert_eq!(moves_of(""), Ok(vec![]));
    assert_eq!(moves_of(" \n "), Ok(vec![]));
    assert_eq!(moves_of("+4\t+2"), Ok(vec![(4, 2)]));
}

#[test]
fn solution_may_hold_moves_that_cannot_be_made() {
    assert_eq!(moves_of("1 0 1 0 4 0"), Ok(vec![(1, 0), (1, 0), (4, 0)]));
}

#[test]
fn solution_with_a_token_that_is_no_number() {
    assert_eq!(moves_of("1 0 x 1"), Err("Parse error: x".to_string()));
    assert_eq!(moves_of("1 zero"), Err("Parse error: zero".to_string()));
    assert_eq!(moves_of("-1 0"), Err("Parse error: -1".to_string()));
}

#[test]
fn solution_with_a_number_out_of_range() {
    assert_eq!(moves_of("5 0"), Err("Out of range: 5".to_string()));
    assert_eq!(moves_of("0 0"), Err("Out of range: 0".to_string()));
    assert_eq!(moves_of("1 3"), Err("Out of range: 3".to_string()));
    assert_eq!(moves_of("1 2 4 2 2 9"), Err("Out of range: 9".to_string()));
}

#[test]
fn solution_with_a_box_left_alone() {
    assert_eq!(moves_of("1"), Err("Unexpected EOF".to_string()));
    assert_eq!(moves_of("1 0 2"), Err("Unexpected EOF".to_string()));
}

#[test]
fn first_complaint_wins() {
    assert_eq!(moves_of("9 x"), Err("Out of range: 9".to_string()));
    assert_eq!(moves_of("x 9"), Err("Parse error: x".to_string()));
    assert_eq!(moves_of("1 0 7"), Err("Out of range: 7".to_string()));
}

#[test]
fn solution_of_most_moves() {
    let text = "1 1 ".repeat(5000);
    let moves = moves_of(&text).unwrap();
    assert_eq!(moves.len(), 5000);
    assert_eq!(moves[4999], (1, 1));
}

#[test]
fn solution_of_too_many_moves() {
    let text = "1 1 ".repeat(5001);
    assert_eq!(moves_of(&text), Err("Too many output".to_string()));
}

#[test]
fn too_many_moves_is_told_last() {
    let text = format!("{}x 1", "1 1 ".repeat(5001));
    assert_eq!(moves_of(&text), Err("Parse error: x".to_string()));
    let text = format!("{}1", "1 1 ".repeat(5001));
    assert_eq!(moves_of(&text), Err("Unexpected EOF".to_string()));
}

#[test]
fn instance_is_read() {
    let input = parse_input("4 2\n1 3\n2 4\n").unwrap();
    assert_eq!(input.n, 4);
    assert_eq!(input.m, 2);
    assert_eq!(input.bs, vec![vec![1, 3], vec![2, 4]]);
}

#[test]
fn instance_lines_do_not_matter() {
    let input = parse_input("  6 3 5 1\n2 6 4\t3").unwrap();
    assert_eq!(input.n, 6);
    assert_eq!(input.m, 3);
    assert_eq!(input.bs, vec![vec![5, 1], vec![2, 6], vec![4, 3]]);
}

#[test]
fn instance_without_boxes() {
    let input = parse_input("0 3").unwrap();
    assert_eq!(input.n, 0);
    assert_eq!(input.m, 3);
    assert_eq!(input.bs, vec![Vec::<usize>::new(), Vec::new(), Vec::new()]);
}

#[test]
fn instance_ignores_what_follows() {
    let input = parse_input("2 1 2 1 99 zz").unwrap();
    assert_eq!(input.n, 2);
    assert_eq!(input.bs, vec![vec![2, 1]]);
}

#[test]
fn instance_with_a_number_missing() {
    assert_eq!(parse_input("").err(), Some("Unexpected EOF".to_string()));
    assert_eq!(parse_input("4").err(), Some("Unexpected EOF".to_string()));
    assert_eq!(parse_input("4 2 1 3 2").err(), Some("Unexpected EOF".to_string()));
    assert_eq!(
        parse_input("18446744073709551615 1 1").err(),
        Some("Unexpected EOF".to_string())
    );
}

#[test]
fn instance_with_a_token_that_is_no_number() {
    assert_eq!(parse_input("a 2").err(), Some("Parse error: a".to_string()));
    assert_eq!(parse_input("4 b").err(), Some("Parse error: b".to_string()));
    assert_eq!(parse_input("4 2 1 3 x 4").err(), Some("Parse error: x".to_string()));
}

#[test]
fn instance_without_stacks() {
    assert_eq!(parse_input("4 0 1 2 3 4").err(), Some("Out of range: 0".to_string()));
}

#[test]
fn instance_with_uneven_stacks() {
    assert_eq!(parse_input("3 2 1 2 3").err(), Some("Uneven stacks: 3 / 2".to_string()));
    assert_eq!(parse_input("1 2").err(), Some("Uneven stacks: 1 / 2".to_string()));
}

#[test]
fn instance_with_a_box_out_of_range() {
    assert_eq!(parse_input("4 2 1 3 2 5").err(), Some("Out of range: 5".to_string()));
    assert_eq!(parse_input("4 2 0 3 2 4").err(), Some("Out of range: 0".to_string()));
}

#[test]
fn instance_with_a_box_named_twice() {
    assert_eq!(parse_input("4 2 1 3 1 4").err(), Some("Duplicate box: 1".to_string()));
    assert_eq!(parse_input("4 2 2 2 1 4").err(), Some("Duplicate box: 2".to_string()));
}

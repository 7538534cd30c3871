use box_stacks::input::Input;
use box_stacks::output::Output;
use box_stacks::replay::{compute_score, compute_score_details};

fn small() -> Input {
    Input { n: 4, m: 2, bs: vec![vec![1, 3], vec![2, 4]] }
}

#[test]
fn no_move_leaves_everything() {
    let input = small();
    let (score, err, bs) = compute_score_details(&input, &[], 0);
    assert_eq!(score, 10000);
    assert_eq!(err, "Not finished (0 / 4)");
    assert_eq!(bs, vec![vec![1, 3], vec![2, 4]]);
}

#[test]
fn turn_zero_reads_no_move() {
    let input = small();
    let moves = vec![(1, 0), (3, 2)];
    let (score, err, bs) = compute_score_details(&input, &moves, 0);
    assert_eq!(score, 10000);
    assert_eq!(err, "Not finished (0 / 4)");
    assert_eq!(bs, input.bs);
}

#[test]
fn whole_solution_without_moves_scores_nothing() {
    let input = small();
    let (score, err) = compute_score(&input, &Output { out: vec![] });
    assert_eq!(score, 0);
    assert_eq!(err, "Not finished (0 / 4)");
}

#[test]
fn no_boxes_no_message() {
    let input = Input { n: 0, m: 2, bs: vec![vec![], vec![]] };
    let (score, err, bs) = compute_score_details(&input, &[], 5);
    assert_eq!(score, 10000);
    assert_eq!(err, "");
    assert_eq!(bs, vec![Vec::<usize>::new(), Vec::new()]);
    let (score, err) = compute_score(&input, &Output { out: vec![] });
    assert_eq!(score, 10000);
    assert_eq!(err, "");
}

#[test]
fn removals_in_order_cost_nothing() {
    let input = Input { n: 4, m: 2, bs: vec![vec![4, 1], vec![3, 2]] };
    let moves = vec![(1, 0), (2, 0), (3, 0), (4, 0)];
    let (score, err, bs) = compute_score_details(&input, &moves, 4);
    assert_eq!(score, 10000);
    assert_eq!(err, "");
    assert_eq!(bs, vec![Vec::<usize>::new(), Vec::new()]);
    let (score, err) = compute_score(&input, &Output { out: moves });
    assert_eq!(score, 10000);
    assert_eq!(err, "");
}

#[test]
fn removals_in_order_stopped_early() {
    let input = Input { n: 4, m: 2, bs: vec![vec![4, 1], vec![3, 2]] };
    let moves = vec![(1, 0), (2, 0), (3, 0), (4, 0)];
    let (score, err, bs) = compute_score_details(&input, &moves, 3);
    assert_eq!(score, 10000);
    assert_eq!(err, "Not finished (3 / 4)");
    assert_eq!(bs, vec![vec![4], vec![]]);
}

#[test]
fn second_box_before_first_is_refused() {
    let input = Input { n: 2, m: 2, bs: vec![vec![1], vec![2]] };
    let moves = vec![(2, 0), (1, 0)];
    for turn in [1usize, 2, 3, 100] {
        let (score, err, bs) = compute_score_details(&input, &moves, turn);
        assert_eq!(score, 0);
        assert_eq!(err, "Before carrying out box 2, all boxes less than 2 must be carried out.");
        assert_eq!(bs, vec![vec![1], vec![2]]);
    }
    let (score, err) = compute_score(&input, &Output { out: moves });
    assert_eq!(score, 0);
    assert_eq!(err, "Before carrying out box 2, all boxes less than 2 must be carried out.");
}

#[test]
fn covered_box_cannot_leave() {
    let input = small();
    let (score, err, bs) = compute_score_details(&input, &[(1, 0)], 1);
    assert_eq!(score, 0);
    assert_eq!(err, "Box 1 is not at the top of the stack.");
    assert_eq!(bs, vec![vec![1, 3], vec![2, 4]]);
}

#[test]
fn covered_is_told_before_too_early() {
    let input = small();
    let (score, err, _) = compute_score_details(&input, &[(2, 0)], 1);
    assert_eq!(score, 0);
    assert_eq!(err, "Box 2 is not at the top of the stack.");
}

#[test]
fn box_taken_out_cannot_move_again() {
    let input = Input { n: 2, m: 1, bs: vec![vec![2, 1]] };
    let moves = vec![(1, 0), (1, 1)];
    let (score, err, bs) = compute_score_details(&input, &moves, 2);
    assert_eq!(score, 0);
    assert_eq!(err, "Box 1 has already been taken out.");
    assert_eq!(bs, vec![vec![2]]);
}

#[test]
fn unknown_box_counts_as_taken_out() {
    let input = small();
    let (score, err, _) = compute_score_details(&input, &[(9, 1)], 1);
    assert_eq!(score, 0);
    assert_eq!(err, "Box 9 has already been taken out.");
}

#[test]
fn moving_the_top_box_costs_two() {
    let input = small();
    let (score, err, bs) = compute_score_details(&input, &[(3, 2)], 1);
    assert_eq!(score, 9998);
    assert_eq!(err, "Not finished (0 / 4)");
    assert_eq!(bs, vec![vec![1], vec![2, 4, 3]]);
}

#[test]
fn moving_a_covered_box_takes_those_on_it() {
    let input = small();
    let (score, err, bs) = compute_score_details(&input, &[(1, 2)], 1);
    assert_eq!(score, 9997);
    assert_eq!(err, "Not finished (0 / 4)");
    assert_eq!(bs, vec![vec![], vec![2, 4, 1, 3]]);
}

#[test]
fn deeper_boxes_cost_more() {
    let input = Input { n: 5, m: 1, bs: vec![vec![5, 4, 3, 2, 1]] };
    let two = Input { n: 5, m: 2, bs: vec![vec![5, 4, 3, 2, 1], vec![]] };
    assert_eq!(compute_score_details(&input, &[(1, 1)], 1).0, 9998);
    assert_eq!(compute_score_details(&input, &[(2, 1)], 1).0, 9997);
    assert_eq!(compute_score_details(&input, &[(5, 1)], 1).0, 9994);
    let (score, _, bs) = compute_score_details(&two, &[(4, 2)], 1);
    assert_eq!(score, 9995);
    assert_eq!(bs, vec![vec![5], vec![4, 3, 2, 1]]);
}

#[test]
fn moving_onto_the_same_stack_only_costs() {
    let input = small();
    let (score, err, bs) = compute_score_details(&input, &[(1, 1), (4, 2)], 2);
    assert_eq!(score, 10000 - 3 - 2);
    assert_eq!(err, "Not finished (0 / 4)");
    assert_eq!(bs, vec![vec![1, 3], vec![2, 4]]);
}

#[test]
fn full_solution_of_the_small_instance() {
    let input = small();
    let moves = vec![(3, 2), (1, 0), (3, 1), (4, 1), (2, 0), (4, 2), (3, 0), (4, 0)];
    let (score, err, bs) = compute_score_details(&input, &moves, moves.len());
    assert_eq!(score, 9992);
    assert_eq!(err, "");
    assert_eq!(bs, vec![Vec::<usize>::new(), Vec::new()]);
    let (score, err) = compute_score(&input, &Output { out: moves });
    assert_eq!(score, 9992);
    assert_eq!(err, "");
}

#[test]
fn narrative_of_the_small_instance() {
    let input = small();
    let moves = vec![(3, 2), (1, 0), (2, 0)];
    let (score, err, bs) = compute_score_details(&input, &moves, 2);
    assert_eq!(score, 9998);
    assert_eq!(err, "Not finished (1 / 4)");
    assert_eq!(bs, vec![vec![], vec![2, 4, 3]]);
    let (score, err, bs) = compute_score_details(&input, &moves, 3);
    assert_eq!(score, 0);
    assert_eq!(err, "Box 2 is not at the top of the stack.");
    assert_eq!(bs, vec![vec![], vec![2, 4, 3]]);
}

#[test]
fn a_prefix_replays_like_the_turn_limit() {
    let input = small();
    let moves = vec![(3, 2), (1, 0), (3, 1), (4, 1), (2, 0), (4, 2), (3, 0), (4, 0), (4, 0)];
    for k in 0..=moves.len() {
        let limited = compute_score_details(&input, &moves, k);
        let prefix = compute_score_details(&input, &moves[..k], k);
        let beyond = compute_score_details(&input, &moves[..k], k + 7);
        assert_eq!(limited, prefix);
        assert_eq!(limited, beyond);
    }
}

#[test]
fn turn_limit_beyond_the_moves() {
    let input = small();
    let moves = vec![(3, 2), (1, 0)];
    assert_eq!(
        compute_score_details(&input, &moves, 2),
        compute_score_details(&input, &moves, usize::MAX)
    );
}

#[test]
fn score_never_falls_under_one() {
    let input = Input { n: 1, m: 1, bs: vec![vec![1]] };
    let moves = vec![(1, 1); 4999];
    let (score, err, _) = compute_score_details(&input, &moves, 4999);
    assert_eq!(score, 2);
    assert_eq!(err, "Not finished (0 / 1)");
    let moves = vec![(1, 1); 5000];
    let (score, _, _) = compute_score_details(&input, &moves, 5000);
    assert_eq!(score, 1);
    let moves = vec![(1, 1); 6000];
    let (score, err, bs) = compute_score_details(&input, &moves, 6000);
    assert_eq!(score, 1);
    assert_eq!(err, "Not finished (0 / 1)");
    assert_eq!(bs, vec![vec![1]]);
}

#[test]
fn whole_solution_that_is_refused_scores_nothing() {
    let input = small();
    let (score, err) = compute_score(&input, &Output { out: vec![(3, 2), (4, 0)] });
    assert_eq!(score, 0);
    assert_eq!(err, "Box 4 is not at the top of the stack.");
}

#[test]
fn whole_solution_left_unfinished_scores_nothing() {
    let input = small();
    let (score, err) = compute_score(&input, &Output { out: vec![(3, 2), (1, 0)] });
    assert_eq!(score, 0);
    assert_eq!(err, "Not finished (1 / 4)");
}

#[test]
fn the_instance_is_not_changed() {
    let input = small();
    let _ = compute_score_details(&input, &[(3, 2), (1, 0)], 2);
    assert_eq!(input.bs, vec![vec![1, 3], vec![2, 4]]);
    assert_eq!(input.n, 4);
    assert_eq!(input.m, 2);
}

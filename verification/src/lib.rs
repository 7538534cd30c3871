//! Judge for the box-stacking puzzle: boxes numbered from 1 lie on a row of
//! stacks, a solution carries them out in increasing order, and every
//! relocation of a run of boxes is charged.
//!
//! The functions of this file take and give text. The modules hold what
//! they are made of: the instance, the solution, the replay and the picture.

pub mod extremes;
pub mod input;
pub mod markup;
pub mod notation;
pub mod output;
pub mod render;
pub mod replay;
pub mod text;

use crate::input::{counting, dealt, shuffled, BOX_COUNT, STACK_COUNT};
use crate::notation::{instance_text, parse_input, parse_instance};
use crate::output::{parse_moves, parse_output};
use crate::render::{picture_text, MAX_STACKS};
use crate::replay::{compute_score_details, run, verdict_message, verdict_score};
use crate::text::words;
use vstd::prelude::*;

verus! {

/// What a replay shows: the score, the message and the picture.
pub struct Ret {
    pub score: i64,
    pub err: String,
    pub svg: String,
}

/// The seed that a signed number stands for: itself, or, below 0, itself
/// counted down from 2 to the 64th.
pub open spec fn seed_of(seed: i32) -> u64 {
    if seed >= 0 {
        seed as u64
    } else {
        (0x1_0000_0000_0000_0000 + seed) as u64
    }
}

/// The stacks of the instance of a seed.
pub open spec fn drawn_stacks(seed: u64) -> Seq<Seq<usize>> {
    dealt(shuffled(seed, counting(1, BOX_COUNT)), STACK_COUNT as nat)
}

/// The text of the instance of the seed.
pub fn gen(seed: i32) -> (s: String)
    ensures
        s@ == instance_text(BOX_COUNT, STACK_COUNT, drawn_stacks(seed_of(seed))),
{
    let wide: u64 = if seed >= 0 {
        seed as u64
    } else {
        u64::MAX - ((-(seed + 1)) as u64)
    };
    let input = crate::input::gen(wide);
    assert(input.bs@.len() == input.stacks().len());
    input.to_string()
}

/// A picture of `n` boxes on `m` stacks can be drawn with `count` colours:
/// there is a box, each stack gets a width of two at least, the size of the
/// letters can be worked out, and each box has its colour.
pub open spec fn drawable(n: usize, m: usize, count: nat) -> bool {
    &&& n > 0
    &&& m <= MAX_STACKS
    &&& 32 * n <= usize::MAX
    &&& count > n
}

/// What `vis` shows for an instance, the moves of a solution and a number of
/// turns: the score and the message of the replay, and the picture of the
/// stacks as it leaves them, or no picture where none can be drawn.
pub open spec fn shown(
    n: usize,
    m: usize,
    stacks: Seq<Seq<usize>>,
    moves: Seq<(usize, usize)>,
    turn: nat,
    fills: Seq<Seq<char>>,
    r: Ret,
) -> bool {
    let p = run(stacks, moves, turn);
    &&& r.score == verdict_score(p)
    &&& r.err@ == verdict_message(p, n as nat)
    &&& r.svg@ == if drawable(n, m, fills.len()) {
        picture_text(n, m, p.tally.stacks, fills)
    } else {
        Seq::<char>::empty()
    }
}

/// Replays the first `turn` moves of the solution `_output` on the instance
/// `_input`, both given as text, and draws the stacks, box `v` in the colour
/// `fills[v]`.
///
/// Where the instance or the solution cannot be read, the score is 0, the
/// message is the complaint and there is no picture.
pub fn vis(_input: String, _output: String, turn: usize, fills: &Vec<String>) -> (r: Ret)
    ensures
        match parse_instance(_input@) {
            Err(e) => r.score == 0 && r.err@ == e && r.svg@.len() == 0,
            Ok((n, m, stacks)) => match parse_moves(_output@, n, m) {
                Err(e) => r.score == 0 && r.err@ == e && r.svg@.len() == 0,
                Ok(moves) => shown(n, m, stacks, moves, turn as nat, words(*fills), r),
            },
        },
{
    let input = match parse_input(_input.as_str()) {
        Ok(input) => input,
        Err(e) => {
            return Ret { score: 0, err: e, svg: String::new() };
        },
    };
    let output = match parse_output(&input, _output.as_str()) {
        Ok(output) => output,
        Err(e) => {
            return Ret { score: 0, err: e, svg: String::new() };
        },
    };
    assert(input.bs@.len() == input.stacks().len());
    if input.n > 0 && input.m <= MAX_STACKS && input.n <= usize::MAX / 32 && fills.len()
        > input.n {
        let (score, err, svg) = crate::render::vis(&input, &output, turn, fills);
        Ret { score, err, svg }
    } else {
        let (score, err, _) = compute_score_details(&input, output.out.as_slice(), turn);
        Ret { score, err, svg: String::new() }
    }
}

/// The number of moves that the solution `_output` holds for the instance
/// `_input`, both given as text: as many as its text writes, whether or not
/// they can be made; 0 where the instance or the solution cannot be read.
pub fn get_max_turn(_input: String, _output: String) -> (r: usize)
    ensures
        r == match parse_instance(_input@) {
            Err(e) => 0,
            Ok((n, m, stacks)) => match parse_moves(_output@, n, m) {
                Err(e) => 0,
                Ok(moves) => moves.len(),
            },
        },
{
    let input = match parse_input(_input.as_str()) {
        Ok(input) => input,
        Err(_) => {
            return 0;
        },
    };
    match parse_output(&input, _output.as_str()) {
        Ok(output) => output.out.len(),
        Err(_) => 0,
    }
}

} // verus!

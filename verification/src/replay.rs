//! Replaying a solution: legality of each move, the cost charged, the score.

use crate::input::{arranged, layers, present, Input};
use crate::output::Output;
use crate::text::{decimal, decimal_string};
use vstd::prelude::*;
use vstd::string::*;

verus! {

/// Why a move was refused.
pub enum Violation {
    /// The box is on no stack any more.
    Gone(usize),
    /// The box was to be carried out while another box lies on it.
    Covered(usize),
    /// The box was to be carried out before a smaller one.
    TooEarly(usize),
}

/// What a replay keeps between two moves.
pub struct Tally {
    /// The stacks, each listed from the bottom up.
    pub stacks: Seq<Seq<usize>>,
    /// How many boxes were carried out; the next one to leave is `removed + 1`.
    pub removed: nat,
    /// The sum charged for the relocations.
    pub cost: nat,
}

/// A replay after some moves: the state reached, and the refusal that froze it.
pub struct Progress {
    pub tally: Tally,
    pub violation: Option<Violation>,
}

/// `i` is the first stack that holds `v`.
pub open spec fn first_stack(stacks: Seq<Seq<usize>>, v: usize, i: int) -> bool {
    &&& 0 <= i < stacks.len()
    &&& stacks[i].contains(v)
    &&& forall|k: int| 0 <= k < i ==> !(#[trigger] stacks[k].contains(v))
}

/// `j` is the lowest height at which `s` holds `v`.
pub open spec fn first_at(s: Seq<usize>, v: usize, j: int) -> bool {
    &&& 0 <= j < s.len()
    &&& s[j] == v
    &&& forall|k: int| 0 <= k < j ==> #[trigger] s[k] != v
}

/// The stack on which `v` is found.
pub open spec fn stack_of(stacks: Seq<Seq<usize>>, v: usize) -> int {
    choose|i: int| first_stack(stacks, v, i)
}

/// The height at which `v` is found, 0 being the bottom.
pub open spec fn height_of(stacks: Seq<Seq<usize>>, v: usize) -> int {
    choose|j: int| first_at(stacks[stack_of(stacks, v)], v, j)
}

/// The stacks after the run that starts at height `j` of stack `i` was put
/// on top of stack `d`.
pub open spec fn relocated(stacks: Seq<Seq<usize>>, i: int, j: int, d: int) -> Seq<Seq<usize>> {
    if i == d {
        stacks
    } else {
        stacks.update(d, stacks[d] + stacks[i].skip(j)).update(i, stacks[i].take(j))
    }
}

/// One move applied to `t`: box `v` leaves (`to == 0`) or goes, with all that
/// lies on it, to stack `to - 1`.
pub open spec fn step(t: Tally, v: usize, to: usize) -> Result<Tally, Violation> {
    if !present(t.stacks, v) {
        Err(Violation::Gone(v))
    } else {
        let i = stack_of(t.stacks, v);
        let j = height_of(t.stacks, v);
        if to == 0 {
            if j + 1 != t.stacks[i].len() {
                Err(Violation::Covered(v))
            } else if v != t.removed + 1 {
                Err(Violation::TooEarly(v))
            } else {
                Ok(
                    Tally {
                        stacks: t.stacks.update(i, t.stacks[i].drop_last()),
                        removed: t.removed + 1,
                        cost: t.cost,
                    },
                )
            }
        } else {
            Ok(
                Tally {
                    stacks: relocated(t.stacks, i, j, to - 1),
                    removed: t.removed,
                    cost: t.cost + ((t.stacks[i].len() - j + 1) as nat),
                },
            )
        }
    }
}

/// The replay of the first `k` moves on `start`. It stops at the first
/// refusal and at the end of the moves.
pub open spec fn run(start: Seq<Seq<usize>>, moves: Seq<(usize, usize)>, k: nat) -> Progress
    decreases k,
{
    if k == 0 {
        Progress { tally: Tally { stacks: start, removed: 0, cost: 0 }, violation: None }
    } else {
        let before = run(start, moves, (k - 1) as nat);
        if before.violation is Some || k > moves.len() {
            before
        } else {
            match step(before.tally, moves[k - 1].0, moves[k - 1].1) {
                Ok(t) => Progress { tally: t, violation: None },
                Err(e) => Progress { tally: before.tally, violation: Some(e) },
            }
        }
    }
}

/// The score that a cost leaves: 10000 less the cost, and never under 1.
pub open spec fn score_of(cost: nat) -> int {
    if 10000 - cost >= 1 {
        10000 - cost
    } else {
        1
    }
}

/// The text that reports a refusal.
pub open spec fn violation_message(e: Violation) -> Seq<char> {
    match e {
        Violation::Gone(v) => "Box "@ + decimal(v as nat) + " has already been taken out."@,
        Violation::Covered(v) => "Box "@ + decimal(v as nat) + " is not at the top of the stack."@,
        Violation::TooEarly(v) => "Before carrying out box "@ + decimal(v as nat)
            + ", all boxes less than "@ + decimal(v as nat) + " must be carried out."@,
    }
}

/// The text that reports that only `removed` of `n` boxes were carried out.
pub open spec fn unfinished_message(removed: nat, n: nat) -> Seq<char> {
    "Not finished ("@ + decimal(removed) + " / "@ + decimal(n) + ")"@
}

/// The score of a replay: nothing after a refusal, else what the cost leaves.
pub open spec fn verdict_score(p: Progress) -> int {
    if p.violation is Some {
        0
    } else {
        score_of(p.tally.cost)
    }
}

/// The message of a replay over `n` boxes: the refusal, else the boxes still
/// to carry out, else nothing.
pub open spec fn verdict_message(p: Progress, n: nat) -> Seq<char> {
    match p.violation {
        Some(e) => violation_message(e),
        None => if p.tally.removed < n {
            unfinished_message(p.tally.removed, n)
        } else {
            Seq::empty()
        },
    }
}

/// The score of a whole solution: a replay that leaves any message scores 0.
pub open spec fn final_score(p: Progress, n: nat) -> int {
    if verdict_message(p, n).len() > 0 {
        0
    } else {
        verdict_score(p)
    }
}

/// Every destination names a stack of the `m`, or 0.
pub open spec fn destinations_within(moves: Seq<(usize, usize)>, m: nat) -> bool {
    forall|k: int| 0 <= k < moves.len() ==> (#[trigger] moves[k]).1 <= m
}

/// The first stack that holds `v` is the one `stack_of` names.
pub proof fn lemma_stack_of(stacks: Seq<Seq<usize>>, v: usize, i: int)
    requires
        first_stack(stacks, v, i),
    ensures
        present(stacks, v),
        stack_of(stacks, v) == i,
{
    let c = stack_of(stacks, v);
    assert(first_stack(stacks, v, c));
    if c < i {
        assert(!stacks[c].contains(v));
    }
    if i < c {
        assert(!stacks[i].contains(v));
    }
}

/// The lowest height of `v` on its stack is the one `height_of` names.
pub proof fn lemma_height_of(stacks: Seq<Seq<usize>>, v: usize, i: int, j: int)
    requires
        first_stack(stacks, v, i),
        first_at(stacks[i], v, j),
    ensures
        height_of(stacks, v) == j,
{
    lemma_stack_of(stacks, v, i);
    let c = height_of(stacks, v);
    assert(first_at(stacks[i], v, c));
    if c < j {
        assert(stacks[i][c] != v);
    }
    if j < c {
        assert(stacks[i][j] != v);
    }
}

/// A replay that was refused stays as it is, whatever follows.
pub proof fn lemma_run_frozen(start: Seq<Seq<usize>>, moves: Seq<(usize, usize)>, k: nat, later: nat)
    requires
        run(start, moves, k).violation is Some,
        k <= later,
    ensures
        run(start, moves, later) == run(start, moves, k),
    decreases later,
{
    if later > k {
        lemma_run_frozen(start, moves, k, (later - 1) as nat);
    }
}

/// Past the last move a replay does not change.
pub proof fn lemma_run_past_end(start: Seq<Seq<usize>>, moves: Seq<(usize, usize)>, later: nat)
    requires
        moves.len() <= later,
    ensures
        run(start, moves, later) == run(start, moves, moves.len()),
    decreases later,
{
    if later > moves.len() {
        lemma_run_past_end(start, moves, (later - 1) as nat);
    }
}

fn gone_text(v: usize) -> (r: String)
    ensures
        r@ == violation_message(Violation::Gone(v)),
{
    let mut s = String::from_str("Box ");
    s.append(decimal_string(v).as_str());
    s.append(" has already been taken out.");
    s
}

fn covered_text(v: usize) -> (r: String)
    ensures
        r@ == violation_message(Violation::Covered(v)),
{
    let mut s = String::from_str("Box ");
    s.append(decimal_string(v).as_str());
    s.append(" is not at the top of the stack.");
    s
}

fn too_early_text(v: usize) -> (r: String)
    ensures
        r@ == violation_message(Violation::TooEarly(v)),
{
    let mut s = String::from_str("Before carrying out box ");
    s.append(decimal_string(v).as_str());
    s.append(", all boxes less than ");
    s.append(decimal_string(v).as_str());
    s.append(" must be carried out.");
    s
}

fn unfinished_text(removed: usize, n: usize) -> (r: String)
    ensures
        r@ == unfinished_message(removed as nat, n as nat),
{
    let mut s = String::from_str("Not finished (");
    s.append(decimal_string(removed).as_str());
    s.append(" / ");
    s.append(decimal_string(n).as_str());
    s.append(")");
    s
}

/// A copy of the stacks.
fn copy_stacks(bs: &Vec<Vec<usize>>) -> (r: Vec<Vec<usize>>)
    ensures
        r@.len() == bs@.len(),
        layers(r) == layers(*bs),
{
    let mut r: Vec<Vec<usize>> = Vec::new();
    let mut i: usize = 0;
    while i < bs.len()
        invariant
            i <= bs@.len(),
            r@.len() == i,
            forall|a: int| 0 <= a < i ==> r@[a]@ == bs@[a]@,
        decreases bs@.len() - i,
    {
        let mut row: Vec<usize> = Vec::new();
        let mut j: usize = 0;
        while j < bs[i].len()
            invariant
                i < bs@.len(),
                j <= bs@[i as int]@.len(),
                row@ == bs@[i as int]@.take(j as int),
            decreases bs@[i as int]@.len() - j,
        {
            row.push(bs[i][j]);
            j += 1;
        }
        r.push(row);
        i += 1;
    }
    assert(layers(r) =~= layers(*bs));
    r
}

/// Where `v` lies: its stack and its height, or nothing when it is on no
/// stack.
fn locate(bs: &Vec<Vec<usize>>, v: usize) -> (r: Option<(usize, usize)>)
    ensures
        r is None <==> !present(layers(*bs), v),
        r matches Some((i, j)) ==> {
            &&& i == stack_of(layers(*bs), v)
            &&& j == height_of(layers(*bs), v)
            &&& i < bs@.len()
            &&& j < bs@[i as int]@.len()
            &&& bs@[i as int]@[j as int] == v
        },
{
    let ghost stacks = layers(*bs);
    let mut i: usize = 0;
    while i < bs.len()
        invariant
            i <= bs@.len(),
            stacks == layers(*bs),
            forall|k: int| 0 <= k < i ==> !(#[trigger] stacks[k].contains(v)),
        decreases bs@.len() - i,
    {
        let mut j: usize = 0;
        while j < bs[i].len()
            invariant
                i < bs@.len(),
                j <= bs@[i as int]@.len(),
                stacks == layers(*bs),
                forall|k: int| 0 <= k < j ==> #[trigger] stacks[i as int][k] != v,
                forall|k: int| 0 <= k < i ==> !(#[trigger] stacks[k].contains(v)),
            decreases bs@[i as int]@.len() - j,
        {
            if bs[i][j] == v {
                proof {
                    assert(stacks[i as int][j as int] == v);
                    assert(first_at(stacks[i as int], v, j as int));
                    assert(first_stack(stacks, v, i as int));
                    lemma_height_of(stacks, v, i as int, j as int);
                }
                return Some((i, j));
            }
            j += 1;
        }
        assert(!stacks[i as int].contains(v));
        i += 1;
    }
    None
}

/// Puts the boxes of stack `i` from height `j` up on top of stack `d` and
/// cuts stack `i` at `j`.
fn relocate(bs: &mut Vec<Vec<usize>>, i: usize, j: usize, d: usize)
    requires
        i < old(bs)@.len(),
        d < old(bs)@.len(),
        j <= old(bs)@[i as int]@.len(),
    ensures
        final(bs)@.len() == old(bs)@.len(),
        layers(*final(bs)) == relocated(layers(*old(bs)), i as int, j as int, d as int),
{
    let ghost before = layers(*bs);
    if i != d {
        let len = bs[i].len();
        let mut k: usize = j;
        while k < len
            invariant
                j <= k <= len,
                i != d,
                i < bs@.len(),
                d < bs@.len(),
                bs@.len() == before.len(),
                len == before[i as int].len(),
                forall|a: int| 0 <= a < bs@.len() && a != d ==> bs@[a]@ == #[trigger] before[a],
                bs@[d as int]@ == before[d as int] + before[i as int].subrange(j as int, k as int),
            decreases len - k,
        {
            let b: usize = bs[i][k];
            bs[d].push(b);
            k += 1;
        }
        bs[i].truncate(j);
        assert(before[i as int].subrange(j as int, len as int) == before[i as int].skip(j as int));
        assert(layers(*bs) =~= relocated(before, i as int, j as int, d as int));
    }
}

/// Replays the first `turn` moves of `out` on the stacks of `input`, or all
/// of them when there are fewer.
///
/// Returns the score, the message and the stacks as the replay left them. A
/// refused move ends the replay with score 0 and its message. Otherwise the
/// score is what the cost leaves, and the message says how many boxes were
/// carried out, unless all `input.n` were.
pub fn compute_score_details(input: &Input, out: &[(usize, usize)], turn: usize) -> (r: (
    i64,
    String,
    Vec<Vec<usize>>,
))
    requires
        destinations_within(out@, input.bs@.len() as nat),
    ensures
        r.0 == verdict_score(run(input.stacks(), out@, turn as nat)),
        r.1@ == verdict_message(run(input.stacks(), out@, turn as nat), input.n as nat),
        layers(r.2) == run(input.stacks(), out@, turn as nat).tally.stacks,
{
    let ghost start = input.stacks();
    let mut bs = copy_stacks(&input.bs);
    let mut cost: u128 = 0;
    let mut t: usize = 0;
    let mut trn: usize = 0;
    while trn < turn && trn < out.len()
        invariant
            trn <= turn,
            trn <= out@.len(),
            start == input.stacks(),
            destinations_within(out@, input.bs@.len() as nat),
            bs@.len() == input.bs@.len(),
            t <= trn,
            cost <= trn * 0x1_0000_0000_0000_0000,
            run(start, out@, trn as nat).violation is None,
            run(start, out@, trn as nat).tally.stacks == layers(bs),
            run(start, out@, trn as nat).tally.removed == t,
            run(start, out@, trn as nat).tally.cost == cost,
        decreases out@.len() - trn,
    {
        let v = out[trn].0;
        let to = out[trn].1;
        let ghost after = run(start, out@, (trn + 1) as nat);
        assert(out@[trn as int].1 <= input.bs@.len());
        trn += 1;
        match locate(&bs, v) {
            None => {
                proof {
                    lemma_run_frozen(start, out@, trn as nat, turn as nat);
                }
                return (0, gone_text(v), bs);
            },
            Some((i, j)) => {
                let height: usize = bs[i].len();
                if to == 0 {
                    if j + 1 != height {
                        proof {
                            lemma_run_frozen(start, out@, trn as nat, turn as nat);
                        }
                        return (0, covered_text(v), bs);
                    } else if v != t + 1 {
                        proof {
                            lemma_run_frozen(start, out@, trn as nat, turn as nat);
                        }
                        return (0, too_early_text(v), bs);
                    }
                    bs[i].pop();
                    t += 1;
                    assert(layers(bs) =~= after.tally.stacks);
                } else {
                    let moved: usize = height - j;
                    cost = cost + moved as u128 + 1;
                    relocate(&mut bs, i, j, to - 1);
                    assert(cost <= trn * 0x1_0000_0000_0000_0000) by (nonlinear_arith)
                        requires
                            cost <= (trn - 1) * 0x1_0000_0000_0000_0000 + 0x1_0000_0000_0000_0000,
                    ;
                }
            },
        }
    }
    proof {
        if trn < turn {
            lemma_run_past_end(start, out@, turn as nat);
        }
    }
    let score: i64 = if cost >= 9999 {
        1
    } else {
        (10000 - cost) as i64
    };
    let err = if t < input.n {
        unfinished_text(t, input.n)
    } else {
        String::new()
    };
    (score, err, bs)
}

/// Scores a whole solution: as `compute_score_details` on all the moves, but
/// the score is 0 whenever a message is left, also when boxes remain.
pub fn compute_score(input: &Input, out: &Output) -> (r: (i64, String))
    requires
        destinations_within(out.out@, input.bs@.len() as nat),
    ensures
        r.0 == final_score(run(input.stacks(), out.out@, out.out@.len()), input.n as nat),
        r.1@ == verdict_message(run(input.stacks(), out.out@, out.out@.len()), input.n as nat),
{
    let (score, err, _) = compute_score_details(input, out.out.as_slice(), out.out.len());
    if !err.as_str().is_empty() {
        (0, err)
    } else {
        (score, err)
    }
}

/// Before the first move nothing is charged: the score is 10000 and the
/// stacks are those of the start. With boxes to carry out the message says
/// that none of them is, and as a whole solution this scores 0.
pub proof fn lemma_nothing_replayed(start: Seq<Seq<usize>>, moves: Seq<(usize, usize)>, n: nat)
    ensures
        run(start, moves, 0).tally.stacks == start,
        verdict_score(run(start, moves, 0)) == 10000,
        n > 0 ==> verdict_message(run(start, moves, 0), n) == unfinished_message(0, n),
        n > 0 ==> final_score(run(start, moves, 0), n) == 0,
        n == 0 ==> final_score(run(start, moves, 0), n) == 10000,
{
    reveal_strlit("Not finished (");
    assert(unfinished_message(0, n).len() > 0);
}

/// A replay that only carries boxes out, and is not refused, charges
/// nothing: its `k` moves took the boxes 1 to `k` in order, the score is
/// 10000, and where `k` boxes are all there are, no message is left.
pub proof fn lemma_removals_only(start: Seq<Seq<usize>>, moves: Seq<(usize, usize)>, k: nat)
    requires
        k <= moves.len(),
        forall|i: int| 0 <= i < k ==> (#[trigger] moves[i]).1 == 0,
        run(start, moves, k).violation is None,
    ensures
        run(start, moves, k).tally.cost == 0,
        run(start, moves, k).tally.removed == k,
        forall|i: int| 0 <= i < k ==> (#[trigger] moves[i]).0 == i + 1,
        verdict_score(run(start, moves, k)) == 10000,
        verdict_message(run(start, moves, k), k) == Seq::<char>::empty(),
        final_score(run(start, moves, k), k) == 10000,
    decreases k,
{
    if k > 0 {
        let before = run(start, moves, (k - 1) as nat);
        assert(before.violation is None);
        lemma_removals_only(start, moves, (k - 1) as nat);
        assert(moves[k - 1].1 == 0);
    }
}

/// A move that is refused ends the replay: however many moves are asked for
/// after it, the stacks stay as they were before it, the score is 0 and the
/// message is that of the refusal.
pub proof fn lemma_refused(
    start: Seq<Seq<usize>>,
    moves: Seq<(usize, usize)>,
    k: nat,
    later: nat,
    n: nat,
)
    requires
        k < moves.len(),
        k < later,
        run(start, moves, k).violation is None,
        step(run(start, moves, k).tally, moves[k as int].0, moves[k as int].1) is Err,
    ensures
        run(start, moves, later).violation == Some(
            step(run(start, moves, k).tally, moves[k as int].0, moves[k as int].1)->Err_0,
        ),
        run(start, moves, later).tally == run(start, moves, k).tally,
        verdict_score(run(start, moves, later)) == 0,
        verdict_message(run(start, moves, later), n) == violation_message(
            step(run(start, moves, k).tally, moves[k as int].0, moves[k as int].1)->Err_0,
        ),
        final_score(run(start, moves, later), n) == 0,
{
    let next = run(start, moves, (k + 1) as nat);
    assert(run(start, moves, k) == run(start, moves, ((k + 1) - 1) as nat));
    assert(next.violation is Some);
    lemma_run_frozen(start, moves, (k + 1) as nat, later);
}

/// Carrying out a box that lies on top of its stack, but is not the next
/// to leave, is refused as too early.
pub proof fn lemma_too_early(t: Tally, v: usize)
    requires
        present(t.stacks, v),
        height_of(t.stacks, v) + 1 == t.stacks[stack_of(t.stacks, v)].len(),
        v != t.removed + 1,
    ensures
        step(t, v, 0) == Err::<Tally, Violation>(Violation::TooEarly(v)),
{
}

/// Carrying out a box on which another lies is refused, whichever box it
/// is.
pub proof fn lemma_covered(t: Tally, v: usize)
    requires
        present(t.stacks, v),
        height_of(t.stacks, v) + 1 != t.stacks[stack_of(t.stacks, v)].len(),
    ensures
        step(t, v, 0) == Err::<Tally, Violation>(Violation::Covered(v)),
{
}

/// A box that is on no stack cannot be moved.
pub proof fn lemma_gone(t: Tally, v: usize, to: usize)
    requires
        !present(t.stacks, v),
    ensures
        step(t, v, to) == Err::<Tally, Violation>(Violation::Gone(v)),
{
}

/// How many boxes lie on `v`.
pub open spec fn depth_of(stacks: Seq<Seq<usize>>, v: usize) -> int {
    stacks[stack_of(stacks, v)].len() - 1 - height_of(stacks, v)
}

/// Putting a box elsewhere is never refused and is charged one more than
/// the number of boxes that go: the box, and those that lie on it. No box
/// is carried out by it.
pub proof fn lemma_relocation_cost(t: Tally, v: usize, to: usize)
    requires
        present(t.stacks, v),
        to != 0,
    ensures
        step(t, v, to) is Ok,
        step(t, v, to)->Ok_0.cost == t.cost + depth_of(t.stacks, v) + 2,
        step(t, v, to)->Ok_0.removed == t.removed,
        depth_of(t.stacks, v) >= 0,
{
    lemma_located(t.stacks, v);
}

/// A box that is present lies where `stack_of` and `height_of` say.
pub proof fn lemma_located(stacks: Seq<Seq<usize>>, v: usize)
    requires
        present(stacks, v),
    ensures
        0 <= stack_of(stacks, v) < stacks.len(),
        0 <= height_of(stacks, v) < stacks[stack_of(stacks, v)].len(),
        stacks[stack_of(stacks, v)][height_of(stacks, v)] == v,
{
    lemma_first_stack_exists(stacks, v, stacks.len() as int);
    let c = stack_of(stacks, v);
    assert(first_stack(stacks, v, c));
    lemma_first_at_exists(stacks[c], v, stacks[c].len() as int);
    assert(first_at(stacks[c], v, height_of(stacks, v)));
}

/// A stack among the first `upto` that holds `v` makes one of them the first
/// to hold it.
proof fn lemma_first_stack_exists(stacks: Seq<Seq<usize>>, v: usize, upto: int)
    requires
        0 <= upto <= stacks.len(),
        exists|i: int| 0 <= i < upto && #[trigger] stacks[i].contains(v),
    ensures
        exists|i: int| first_stack(stacks, v, i),
    decreases upto,
{
    if exists|i: int| 0 <= i < upto - 1 && #[trigger] stacks[i].contains(v) {
        lemma_first_stack_exists(stacks, v, upto - 1);
    } else {
        assert(stacks[upto - 1].contains(v));
        assert(first_stack(stacks, v, upto - 1));
    }
}

/// A stack that holds `v` under height `upto` holds it at a lowest height.
proof fn lemma_first_at_exists(s: Seq<usize>, v: usize, upto: int)
    requires
        0 <= upto <= s.len(),
        exists|j: int| 0 <= j < upto && s[j] == v,
    ensures
        exists|j: int| first_at(s, v, j),
    decreases upto,
{
    if exists|j: int| 0 <= j < upto - 1 && s[j] == v {
        lemma_first_at_exists(s, v, upto - 1);
    } else {
        assert(s[upto - 1] == v);
        assert(first_at(s, v, upto - 1));
    }
}

/// A replay of `k` moves reads no move after them: it is the replay of the
/// first `k` moves alone, however many of those are asked for.
pub proof fn lemma_run_prefix(
    start: Seq<Seq<usize>>,
    moves: Seq<(usize, usize)>,
    k: nat,
    later: nat,
)
    requires
        k <= moves.len(),
        k <= later,
    ensures
        run(start, moves.take(k as int), later) == run(start, moves, k),
{
    lemma_run_past_end(start, moves.take(k as int), later);
    lemma_run_same_moves(start, moves, moves.take(k as int), k);
}

/// Two solutions that agree on their first `k` moves replay alike that far.
pub proof fn lemma_run_same_moves(
    start: Seq<Seq<usize>>,
    a: Seq<(usize, usize)>,
    b: Seq<(usize, usize)>,
    k: nat,
)
    requires
        k <= a.len(),
        k <= b.len(),
        forall|i: int| 0 <= i < k ==> a[i] == b[i],
    ensures
        run(start, a, k) == run(start, b, k),
    decreases k,
{
    if k > 0 {
        lemma_run_same_moves(start, a, b, (k - 1) as nat);
    }
}

/// A move that is made keeps the boxes in order: the stacks stay as many,
/// and they hold each box that was not carried out once, and nothing else.
pub proof fn lemma_step_arranged(t: Tally, v: usize, to: usize, n: nat)
    requires
        arranged(t.stacks, t.removed, n),
        to <= t.stacks.len(),
        step(t, v, to) is Ok,
    ensures
        step(t, v, to)->Ok_0.stacks.len() == t.stacks.len(),
        step(t, v, to)->Ok_0.removed <= n,
        arranged(step(t, v, to)->Ok_0.stacks, step(t, v, to)->Ok_0.removed, n),
{
    let old = t.stacks;
    let lo = t.removed;
    let after = step(t, v, to)->Ok_0;
    let new = after.stacks;
    lemma_located(old, v);
    let i = stack_of(old, v);
    let j = height_of(old, v);
    assert(lo < old[i][j] <= n);
    if to == 0 {
        assert forall|a: int, b: int| 0 <= a < new.len() && 0 <= b < new[a].len() implies lo + 1
            < #[trigger] new[a][b] <= n by {
            assert(new[a][b] == old[a][b]);
            if old[a][b] == old[i][j] {
                assert(a == i && b == j);
            }
        }
        assert forall|a: int, b: int, c: int, d: int|
            #![trigger new[a][b], new[c][d]]
            0 <= a < new.len() && 0 <= b < new[a].len() && 0 <= c < new.len() && 0 <= d
                < new[c].len() && new[a][b] == new[c][d] implies a == c && b == d by {
            assert(new[a][b] == old[a][b]);
            assert(new[c][d] == old[c][d]);
        }
        assert forall|w: usize| lo + 1 < w <= n implies present(new, w) by {
            assert(present(old, w));
            let a = choose|a: int| 0 <= a < old.len() && #[trigger] old[a].contains(w);
            let b = choose|b: int| 0 <= b < old[a].len() && old[a][b] == w;
            if a == i && b == j {
                assert(false);
            }
            if a == i {
                assert(old[i][b] == old[i][j] ==> b == j);
            }
            assert(new[a][b] == w);
            assert(new[a].contains(w));
        }
    } else {
        let d = to - 1;
        if d != i {
            let base = old[d].len() as int;
            assert forall|a: int, b: int| 0 <= a < new.len() && 0 <= b < new[a].len() implies lo
                < #[trigger] new[a][b] <= n by {
                if a == d && b >= base {
                    assert(new[a][b] == old[i][j + b - base]);
                } else {
                    assert(new[a][b] == old[a][b]);
                }
            }
            assert forall|a: int, b: int, c: int, e: int|
                #![trigger new[a][b], new[c][e]]
                0 <= a < new.len() && 0 <= b < new[a].len() && 0 <= c < new.len() && 0 <= e
                    < new[c].len() && new[a][b] == new[c][e] implies a == c && b == e by {
                if a == d && b >= base {
                    assert(new[a][b] == old[i][j + b - base]);
                } else {
                    assert(new[a][b] == old[a][b]);
                }
                if c == d && e >= base {
                    assert(new[c][e] == old[i][j + e - base]);
                } else {
                    assert(new[c][e] == old[c][e]);
                }
            }
            assert forall|w: usize| lo < w <= n implies present(new, w) by {
                assert(present(old, w));
                let a = choose|a: int| 0 <= a < old.len() && #[trigger] old[a].contains(w);
                let b = choose|b: int| 0 <= b < old[a].len() && old[a][b] == w;
                if a == i && b >= j {
                    assert(new[d][base + b - j] == w);
                    assert(new[d].contains(w));
                } else {
                    assert(new[a][b] == w);
                    assert(new[a].contains(w));
                }
            }
        }
    }
}

/// However far a solution is replayed on boxes that are in order, they stay
/// so: the stacks stay as many, at most `n` boxes are carried out, and the
/// stacks hold each of the others once and nothing else.
pub proof fn lemma_run_arranged(
    start: Seq<Seq<usize>>,
    moves: Seq<(usize, usize)>,
    k: nat,
    n: nat,
)
    requires
        arranged(start, 0, n),
        destinations_within(moves, start.len()),
    ensures
        run(start, moves, k).tally.stacks.len() == start.len(),
        run(start, moves, k).tally.removed <= n,
        arranged(run(start, moves, k).tally.stacks, run(start, moves, k).tally.removed, n),
    decreases k,
{
    if k > 0 {
        let before = run(start, moves, (k - 1) as nat);
        lemma_run_arranged(start, moves, (k - 1) as nat, n);
        if before.violation is None && k <= moves.len() {
            let (v, to) = moves[k - 1];
            assert(moves[k - 1].1 <= start.len());
            if step(before.tally, v, to) is Ok {
                lemma_step_arranged(before.tally, v, to, n);
            }
        }
    }
}

/// While the boxes are in order, a box of the instance is on no stack just
/// when it was carried out; and once all were, the stacks are empty.
pub proof fn lemma_gone_is_carried_out(t: Tally, v: usize, n: nat)
    requires
        arranged(t.stacks, t.removed, n),
        1 <= v <= n,
    ensures
        !present(t.stacks, v) <==> v <= t.removed,
        t.removed == n ==> forall|i: int| 0 <= i < t.stacks.len() ==> (#[trigger] t.stacks[i]).len() == 0,
{
    if present(t.stacks, v) {
        lemma_located(t.stacks, v);
    }
    if t.removed == n {
        assert forall|i: int| 0 <= i < t.stacks.len() implies (#[trigger] t.stacks[i]).len()
            == 0 by {
            if t.stacks[i].len() > 0 {
                let lowest = t.stacks[i][0];
                assert(t.removed < lowest <= n);
            }
        }
    }
}

/// Carrying out a box that lies on top but is not the next to leave ends
/// the replay, whatever the number of moves asked for after it: the score is
/// 0 and the message names the box.
pub proof fn lemma_out_of_turn(
    start: Seq<Seq<usize>>,
    moves: Seq<(usize, usize)>,
    k: nat,
    later: nat,
    n: nat,
)
    requires
        k < moves.len(),
        k < later,
        run(start, moves, k).violation is None,
        moves[k as int].1 == 0,
        present(run(start, moves, k).tally.stacks, moves[k as int].0),
        depth_of(run(start, moves, k).tally.stacks, moves[k as int].0) == 0,
        moves[k as int].0 != run(start, moves, k).tally.removed + 1,
    ensures
        run(start, moves, later).violation == Some(Violation::TooEarly(moves[k as int].0)),
        run(start, moves, later).tally == run(start, moves, k).tally,
        verdict_score(run(start, moves, later)) == 0,
        verdict_message(run(start, moves, later), n) == violation_message(
            Violation::TooEarly(moves[k as int].0),
        ),
{
    lemma_too_early(run(start, moves, k).tally, moves[k as int].0);
    lemma_refused(start, moves, k, later, n);
}

/// Carrying out a box on which another lies ends the replay, whatever the
/// number of moves asked for after it: the score is 0 and the message names
/// the box.
pub proof fn lemma_not_on_top(
    start: Seq<Seq<usize>>,
    moves: Seq<(usize, usize)>,
    k: nat,
    later: nat,
    n: nat,
)
    requires
        k < moves.len(),
        k < later,
        run(start, moves, k).violation is None,
        moves[k as int].1 == 0,
        present(run(start, moves, k).tally.stacks, moves[k as int].0),
        depth_of(run(start, moves, k).tally.stacks, moves[k as int].0) > 0,
    ensures
        run(start, moves, later).violation == Some(Violation::Covered(moves[k as int].0)),
        run(start, moves, later).tally == run(start, moves, k).tally,
        verdict_score(run(start, moves, later)) == 0,
        verdict_message(run(start, moves, later), n) == violation_message(
            Violation::Covered(moves[k as int].0),
        ),
{
    lemma_covered(run(start, moves, k).tally, moves[k as int].0);
    lemma_refused(start, moves, k, later, n);
}

} // verus!

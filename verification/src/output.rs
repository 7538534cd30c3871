//! The solution: its moves, and how they are read from text.

use crate::input::Input;
use crate::text::{decimal, decimal_string, parse_number, parse_usize, split_tokens, tokens, words};
use vstd::prelude::*;
use vstd::string::*;

verus! {

/// The most moves that a solution may hold.
pub const MAX_MOVES: usize = 5000;

/// A solution: the moves in the order in which they are made. A move is a
/// box and a destination: 0 to carry the box out, else the number of the
/// stack, counted from 1, on which it is put.
pub struct Output {
    pub out: Vec<(usize, usize)>,
}

/// Every move names a box of the `n` and a destination of 0 to `m`, and
/// there are no more moves than a solution may hold.
pub open spec fn moves_fit(moves: Seq<(usize, usize)>, n: nat, m: nat) -> bool {
    &&& moves.len() <= MAX_MOVES
    &&& forall|k: int|
        0 <= k < moves.len() ==> 1 <= (#[trigger] moves[k]).0 <= n && moves[k].1 <= m
}

impl Output {
    /// The moves suit the instance `input`.
    pub open spec fn fits(&self, input: &Input) -> bool {
        moves_fit(self.out@, input.n as nat, input.m as nat)
    }
}

/// What reading a token gives: the number it writes, if that lies between
/// `lo` and `hi`, else the complaint.
pub open spec fn read_spec(token: Option<Seq<char>>, lo: usize, hi: usize) -> Result<
    usize,
    Seq<char>,
> {
    match token {
        None => Err("Unexpected EOF"@),
        Some(t) => match parse_usize(t) {
            None => Err("Parse error: "@ + t),
            Some(v) => if lo <= v <= hi {
                Ok(v)
            } else {
                Err("Out of range: "@ + decimal(v as nat))
            },
        },
    }
}

/// The token at place `i`, if there is one.
pub open spec fn token_at(t: Seq<Seq<char>>, i: int) -> Option<Seq<char>> {
    if 0 <= i < t.len() {
        Some(t[i])
    } else {
        None
    }
}

/// The move that the tokens at `2 * k` and `2 * k + 1` write for an instance
/// of `n` boxes and `m` stacks, or the complaint about the first of the two
/// that does not do.
pub open spec fn pair_at(t: Seq<Seq<char>>, n: usize, m: usize, k: int) -> Result<
    (usize, usize),
    Seq<char>,
> {
    match read_spec(token_at(t, 2 * k), 1, n) {
        Err(e) => Err(e),
        Ok(b) => match read_spec(token_at(t, 2 * k + 1), 0, m) {
            Err(e) => Err(e),
            Ok(d) => Ok((b, d)),
        },
    }
}

/// The first `k` moves that the tokens write, or the first complaint.
pub open spec fn pairs_upto(t: Seq<Seq<char>>, n: usize, m: usize, k: nat) -> Result<
    Seq<(usize, usize)>,
    Seq<char>,
>
    decreases k,
{
    if k == 0 {
        Ok(Seq::empty())
    } else {
        match pairs_upto(t, n, m, (k - 1) as nat) {
            Err(e) => Err(e),
            Ok(ms) => match pair_at(t, n, m, k - 1) {
                Err(e) => Err(e),
                Ok(p) => Ok(ms.push(p)),
            },
        }
    }
}

/// How many moves `count` tokens start: a token left alone at the end
/// starts one too.
pub open spec fn pair_count(count: nat) -> nat {
    (count + 1) / 2
}

/// The moves that `text` writes for an instance of `n` boxes and `m`
/// stacks: its tokens two by two, a box and a destination. The first token
/// that does not do gives the complaint, a missing destination too; more
/// moves than a solution may hold are refused after that.
pub open spec fn parse_moves(text: Seq<char>, n: usize, m: usize) -> Result<
    Seq<(usize, usize)>,
    Seq<char>,
> {
    let t = tokens(text);
    match pairs_upto(t, n, m, pair_count(t.len())) {
        Err(e) => Err(e),
        Ok(ms) => if ms.len() > MAX_MOVES {
            Err("Too many output"@)
        } else {
            Ok(ms)
        },
    }
}

/// What `read` hands back, with the text of the complaint.
pub open spec fn read_view(r: Result<usize, String>) -> Result<usize, Seq<char>> {
    match r {
        Ok(v) => Ok(v),
        Err(e) => Err(e@),
    }
}

/// The text of the token, if there is one.
pub open spec fn token_view(token: Option<&str>) -> Option<Seq<char>> {
    match token {
        Some(t) => Some(t@),
        None => None,
    }
}

/// Reads a token as a number between `lo` and `hi`, both included.
pub fn read(token: Option<&str>, lo: usize, hi: usize) -> (r: Result<usize, String>)
    ensures
        read_view(r) == read_spec(token_view(token), lo, hi),
{
    match token {
        Some(t) => match parse_number(t) {
            Some(v) => {
                if lo <= v && v <= hi {
                    Ok(v)
                } else {
                    let mut e = String::from_str("Out of range: ");
                    e.append(decimal_string(v).as_str());
                    Err(e)
                }
            },
            None => {
                let mut e = String::from_str("Parse error: ");
                e.append(t);
                Err(e)
            },
        },
        None => Err(String::from_str("Unexpected EOF")),
    }
}

/// The moves read so far suit the instance.
proof fn lemma_pairs_fit(t: Seq<Seq<char>>, n: usize, m: usize, k: nat)
    ensures
        pairs_upto(t, n, m, k) matches Ok(ms) ==> {
            &&& ms.len() == k
            &&& forall|a: int| 0 <= a < k ==> 1 <= (#[trigger] ms[a]).0 <= n && ms[a].1 <= m
        },
    decreases k,
{
    if k > 0 {
        lemma_pairs_fit(t, n, m, (k - 1) as nat);
    }
}

/// Reads a solution for `input` from `f`.
///
/// The tokens of `f` are taken two by two, a box from 1 to `input.n` and a
/// destination from 0 to `input.m`. The first token that does not do ends
/// the reading with its complaint, and so does a box left without a
/// destination; a solution of more than 5000 moves is refused.
pub fn parse_output(input: &Input, f: &str) -> (r: Result<Output, String>)
    ensures
        match r {
            Ok(o) => parse_moves(f@, input.n, input.m) == Ok::<Seq<(usize, usize)>, Seq<char>>(
                o.out@,
            ),
            Err(e) => parse_moves(f@, input.n, input.m) == Err::<Seq<(usize, usize)>, Seq<char>>(
                e@,
            ),
        },
        r matches Ok(o) ==> o.fits(input),
{
    let toks = split_tokens(f);
    let ghost t = tokens(f@);
    let mut out: Vec<(usize, usize)> = Vec::new();
    let mut i: usize = 0;
    assert(toks@.len() == t.len());
    while i < toks.len()
        invariant
            t == tokens(f@),
            words(toks) == t,
            toks@.len() == t.len(),
            i <= toks@.len(),
            i == 2 * out@.len(),
            pairs_upto(t, input.n, input.m, out@.len() as nat) == Ok::<
                Seq<(usize, usize)>,
                Seq<char>,
            >(out@),
        decreases toks@.len() - i,
    {
        let ghost k = out@.len() as int;
        assert(t[i as int] == toks@[i as int]@);
        let b = match read(Some(toks[i].as_str()), 1, input.n) {
            Ok(b) => b,
            Err(e) => {
                proof {
                    assert(pair_at(t, input.n, input.m, k) is Err);
                    assert(pairs_upto(t, input.n, input.m, (k + 1) as nat) is Err);
                    lemma_pairs_stuck(t, input.n, input.m, (k + 1) as nat, pair_count(t.len()));
                }
                return Err(e);
            },
        };
        let second = if i + 1 < toks.len() {
            assert(t[i + 1] == toks@[i + 1]@);
            Some(toks[i + 1].as_str())
        } else {
            None
        };
        let d = match read(second, 0, input.m) {
            Ok(d) => d,
            Err(e) => {
                proof {
                    assert(pair_at(t, input.n, input.m, k) is Err);
                    assert(pairs_upto(t, input.n, input.m, (k + 1) as nat) is Err);
                    lemma_pairs_stuck(t, input.n, input.m, (k + 1) as nat, pair_count(t.len()));
                }
                return Err(e);
            },
        };
        out.push((b, d));
        i += 2;
    }
    proof {
        lemma_pairs_fit(t, input.n, input.m, out@.len() as nat);
    }
    if out.len() > MAX_MOVES {
        return Err(String::from_str("Too many output"));
    }
    Ok(Output { out })
}

/// Once a token was refused, the complaint stays.
proof fn lemma_pairs_stuck(t: Seq<Seq<char>>, n: usize, m: usize, k: nat, later: nat)
    requires
        pairs_upto(t, n, m, k) is Err,
        k <= later,
    ensures
        pairs_upto(t, n, m, later) == pairs_upto(t, n, m, k),
    decreases later,
{
    if later > k {
        lemma_pairs_stuck(t, n, m, k, (later - 1) as nat);
    }
}

} // verus!

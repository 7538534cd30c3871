//! The text form of an instance: how it is written and how it is read.

use crate::input::{layers, present, well_formed, Input};
use crate::output::{read, read_spec, token_at};
use crate::text::{
    decimal, decimal_string, lemma_decimal_parses, lemma_tokens_after_space, lemma_tokens_numeral,
    split_tokens, tokens, words,
};
use itertools::Itertools;
use vstd::prelude::*;
use vstd::string::*;

verus! {

/// The numbers of `row` in decimal, `sep` between each two.
pub open spec fn joined(row: Seq<usize>, sep: Seq<char>) -> Seq<char>
    decreases row.len(),
{
    if row.len() == 0 {
        Seq::empty()
    } else if row.len() == 1 {
        decimal(row[0] as nat)
    } else {
        decimal(row[0] as nat) + sep + joined(row.drop_first(), sep)
    }
}

/// The lines of the first `k` stacks: the boxes of each from the bottom up,
/// a blank between each two, and a line feed.
pub open spec fn rows_text(stacks: Seq<Seq<usize>>, k: int) -> Seq<char>
    decreases k,
{
    if k <= 0 {
        Seq::empty()
    } else {
        rows_text(stacks, k - 1) + joined(stacks[k - 1], " "@) + "\n"@
    }
}

/// The text of an instance: a line with `n` and `m`, then one line for each
/// of the `m` stacks.
pub open spec fn instance_text(n: usize, m: usize, stacks: Seq<Seq<usize>>) -> Seq<char> {
    decimal(n as nat) + " "@ + decimal(m as nat) + "\n"@ + rows_text(stacks, m as int)
}

/// The complaint about `n` boxes that `m` stacks cannot share evenly.
pub open spec fn uneven_message(n: usize, m: usize) -> Seq<char> {
    "Uneven stacks: "@ + decimal(n as nat) + " / "@ + decimal(m as nat)
}

/// The complaint about a box that was named before.
pub open spec fn duplicate_message(v: usize) -> Seq<char> {
    "Duplicate box: "@ + decimal(v as nat)
}

/// The first `k` boxes that the tokens write after the two counts, for an
/// instance of `n` boxes, or the first complaint: about a token that is
/// missing, writes no number or none from 1 to `n`, or names a box again.
pub open spec fn boxes_upto(t: Seq<Seq<char>>, n: usize, k: nat) -> Result<Seq<usize>, Seq<char>>
    decreases k,
{
    if k == 0 {
        Ok(Seq::empty())
    } else {
        match boxes_upto(t, n, (k - 1) as nat) {
            Err(e) => Err(e),
            Ok(bs) => match read_spec(token_at(t, (k + 1) as int), 1, n) {
                Err(e) => Err(e),
                Ok(v) => if bs.contains(v) {
                    Err(duplicate_message(v))
                } else {
                    Ok(bs.push(v))
                },
            },
        }
    }
}

/// The place in the text of the lowest box of stack `i`, the stacks being of
/// height `h`.
pub open spec fn row_start(i: int, h: int) -> int {
    i * h
}

/// `flat` cut into `m` stacks of height `h`.
pub open spec fn rows(flat: Seq<usize>, m: nat, h: nat) -> Seq<Seq<usize>> {
    Seq::new(m, |i: int| flat.subrange(row_start(i, h as int), row_start(i + 1, h as int)))
}

/// The instance that `text` writes: the number of boxes, the number of
/// stacks, which is not 0 and divides the first, and then the boxes, each
/// from 1 to `n` and none twice, stack by stack from the bottom up. What
/// follows the last box is not read. The first thing that does not do gives
/// the complaint.
pub open spec fn parse_instance(text: Seq<char>) -> Result<
    (usize, usize, Seq<Seq<usize>>),
    Seq<char>,
> {
    let t = tokens(text);
    match read_spec(token_at(t, 0), 0, usize::MAX) {
        Err(e) => Err(e),
        Ok(n) => match read_spec(token_at(t, 1), 1, usize::MAX) {
            Err(e) => Err(e),
            Ok(m) => if n % m != 0 {
                Err(uneven_message(n, m))
            } else {
                match boxes_upto(t, n, n as nat) {
                    Err(e) => Err(e),
                    Ok(flat) => Ok((n, m, rows(flat, m as nat, (n / m) as nat))),
                }
            },
        },
    }
}

/// `Itertools::join` of itertools on the numbers of `row`: each is written
/// as its `Display` does, in decimal, with `sep` between each two.
#[verifier::external_body]
fn join_numbers(row: &Vec<usize>, sep: &str) -> (s: String)
    ensures
        s@ == joined(row@, sep@),
{
    row.iter().join(sep)
}

impl Input {
    /// Writes the instance as text.
    pub fn to_string(&self) -> (s: String)
        requires
            self.m <= self.bs@.len(),
        ensures
            s@ == instance_text(self.n, self.m, self.stacks()),
    {
        let mut s = decimal_string(self.n);
        s.append(" ");
        s.append(decimal_string(self.m).as_str());
        s.append("\n");
        let ghost head = s@;
        let mut i: usize = 0;
        assert(s@ =~= head + rows_text(self.stacks(), 0));
        while i < self.m
            invariant
                i <= self.m <= self.bs@.len(),
                s@ == head + rows_text(self.stacks(), i as int),
            decreases self.m - i,
        {
            let ghost before = rows_text(self.stacks(), i as int);
            let line = join_numbers(&self.bs[i], " ");
            s.append(line.as_str());
            s.append("\n");
            i += 1;
            assert(s@ =~= head + (before + line@ + "\n"@));
        }
        s
    }
}

/// The boxes from 1 to `n`.
pub open spec fn box_set(n: nat) -> Set<usize> {
    Set::new(|v: usize| 1 <= v <= n)
}

proof fn lemma_box_set(n: nat)
    requires
        n <= usize::MAX,
    ensures
        box_set(n).finite(),
        box_set(n).len() == n,
    decreases n,
{
    if n == 0 {
        assert(box_set(n) =~= Set::<usize>::empty());
    } else {
        lemma_box_set((n - 1) as nat);
        assert(box_set(n) =~= box_set((n - 1) as nat).insert(n as usize));
    }
}

/// `n` different boxes from 1 to `n` are all of them.
pub proof fn lemma_all_boxes(flat: Seq<usize>, n: nat)
    requires
        n <= usize::MAX,
        flat.len() == n,
        flat.no_duplicates(),
        forall|k: int| 0 <= k < n ==> 1 <= #[trigger] flat[k] <= n,
    ensures
        forall|v: usize| 1 <= v <= n ==> flat.contains(v),
{
    let held = flat.to_set();
    flat.unique_seq_to_set();
    vstd::seq_lib::seq_to_set_is_finite(flat);
    lemma_box_set(n);
    assert(held.subset_of(box_set(n))) by {
        assert forall|v: usize| held.contains(v) implies box_set(n).contains(v) by {
            let k = choose|k: int| 0 <= k < flat.len() && flat[k] == v;
            assert(1 <= flat[k] <= n);
        }
    }
    vstd::set_lib::lemma_subset_equality(held, box_set(n));
    assert forall|v: usize| 1 <= v <= n implies flat.contains(v) by {
        assert(box_set(n).contains(v));
        assert(held.contains(v));
    }
}

/// `n` different boxes from 1 to `n`, cut into `m` stacks of one height,
/// make an instance that is in order.
pub proof fn lemma_rows_arranged(flat: Seq<usize>, n: nat, m: nat)
    requires
        n <= usize::MAX,
        m > 0,
        n % m == 0,
        flat.len() == n,
        flat.no_duplicates(),
        forall|k: int| 0 <= k < n ==> 1 <= #[trigger] flat[k] <= n,
    ensures
        well_formed(n, m, rows(flat, m, n / m)),
{
    let h = n / m;
    let stacks = rows(flat, m, h);
    assert(n == m * h) by (nonlinear_arith)
        requires
            h == n / m,
            n % m == 0,
            m > 0,
    ;
    assert forall|i: int| 0 <= i < m implies 0 <= #[trigger] row_start(i, h as int) <= n - h
        && row_start(i + 1, h as int) == row_start(i, h as int) + h by {
        assert(0 <= i * h <= m * h - h && (i + 1) * h == i * h + h) by (nonlinear_arith)
            requires
                0 <= i < m,
                0 <= h,
        ;
    }
    assert forall|i: int| 0 <= i < m implies (#[trigger] stacks[i]).len() == h by {}
    assert forall|i: int, j: int|
        0 <= i < stacks.len() && 0 <= j < stacks[i].len() implies #[trigger] stacks[i][j]
        == flat[i * h + j] && 0 <= i * h + j < n by {
        assert(0 <= row_start(i, h as int) <= n - h);
    }
    lemma_all_boxes(flat, n);
    assert forall|i: int, j: int, a: int, b: int|
        #![trigger stacks[i][j], stacks[a][b]]
        0 <= i < stacks.len() && 0 <= j < stacks[i].len() && 0 <= a < stacks.len() && 0 <= b
            < stacks[a].len() && stacks[i][j] == stacks[a][b] implies i == a && j == b by {
        assert(stacks[i][j] == flat[i * h + j]);
        assert(stacks[a][b] == flat[a * h + b]);
        assert(i * h + j == a * h + b);
        assert(i == a && j == b) by (nonlinear_arith)
            requires
                i * h + j == a * h + b,
                0 <= j < h,
                0 <= b < h,
        ;
    }
    assert forall|v: usize| 0 < v <= n implies present(stacks, v) by {
        assert(flat.contains(v));
        let k = choose|k: int| 0 <= k < flat.len() && flat[k] == v;
        let i = k / (h as int);
        let j = k % (h as int);
        assert(h > 0);
        assert(k == i * h + j && 0 <= j < h && 0 <= i < m) by (nonlinear_arith)
            requires
                i == k / (h as int),
                j == k % (h as int),
                0 <= k < m * h,
                h > 0,
        ;
        assert(0 <= row_start(i, h as int) <= n - h);
        assert(stacks[i][j] == v);
        assert(stacks[i].contains(v));
    }
}

/// The boxes read so far are different and lie from 1 to `n`.
proof fn lemma_boxes_upto(t: Seq<Seq<char>>, n: usize, k: nat)
    ensures
        boxes_upto(t, n, k) matches Ok(bs) ==> {
            &&& bs.len() == k
            &&& bs.no_duplicates()
            &&& forall|a: int| 0 <= a < k ==> 1 <= #[trigger] bs[a] <= n
        },
    decreases k,
{
    if k > 0 {
        lemma_boxes_upto(t, n, (k - 1) as nat);
    }
}

/// Once a box was refused, the complaint stays.
proof fn lemma_boxes_stuck(t: Seq<Seq<char>>, n: usize, k: nat, later: nat)
    requires
        boxes_upto(t, n, k) is Err,
        k <= later,
    ensures
        boxes_upto(t, n, later) == boxes_upto(t, n, k),
    decreases later,
{
    if later > k {
        lemma_boxes_stuck(t, n, k, (later - 1) as nat);
    }
}

fn holds(flat: &Vec<usize>, v: usize) -> (r: bool)
    ensures
        r == flat@.contains(v),
{
    let mut k: usize = 0;
    while k < flat.len()
        invariant
            k <= flat@.len(),
            forall|a: int| 0 <= a < k ==> flat@[a] != v,
        decreases flat@.len() - k,
    {
        if flat[k] == v {
            return true;
        }
        k += 1;
    }
    false
}

fn cut_rows(flat: &Vec<usize>, m: usize, h: usize) -> (bs: Vec<Vec<usize>>)
    requires
        flat@.len() == m * h,
    ensures
        layers(bs) == rows(flat@, m as nat, h as nat),
{
    let mut bs: Vec<Vec<usize>> = Vec::new();
    let mut i: usize = 0;
    let mut at: usize = 0;
    let total = flat.len();
    while i < m
        invariant
            i <= m,
            at == i * h,
            total == flat@.len(),
            flat@.len() == m * h,
            bs@.len() == i,
            forall|a: int|
                0 <= a < i ==> (#[trigger] bs@[a])@ == flat@.subrange(
                    row_start(a, h as int),
                    row_start(a + 1, h as int),
                ),
        decreases m - i,
    {
        assert(at + h == (i + 1) * h && (i + 1) * h <= m * h) by (nonlinear_arith)
            requires
                at == i * h,
                i < m,
        ;
        let mut row: Vec<usize> = Vec::new();
        let mut j: usize = 0;
        while j < h
            invariant
                j <= h,
                total == flat@.len(),
                at + h <= flat@.len(),
                row@ == flat@.subrange(at as int, at + j),
            decreases h - j,
        {
            row.push(flat[at + j]);
            j += 1;
        }
        bs.push(row);
        at += h;
        i += 1;
    }
    assert(layers(bs) =~= rows(flat@, m as nat, h as nat));
    bs
}

/// Reads the `n` boxes that follow the two counts.
fn read_boxes(toks: &Vec<String>, n: usize) -> (r: Result<Vec<usize>, String>)
    requires
        toks@.len() >= 2,
    ensures
        match r {
            Ok(flat) => boxes_upto(words(*toks), n, n as nat) == Ok::<Seq<usize>, Seq<char>>(
                flat@,
            ),
            Err(e) => boxes_upto(words(*toks), n, n as nat) == Err::<Seq<usize>, Seq<char>>(e@),
        },
{
    let ghost t = words(*toks);
    let mut flat: Vec<usize> = Vec::new();
    let mut k: usize = 0;
    while k < n
        invariant
            words(*toks) == t,
            toks@.len() == t.len(),
            toks@.len() >= 2,
            k <= n,
            flat@.len() == k,
            boxes_upto(t, n, k as nat) == Ok::<Seq<usize>, Seq<char>>(flat@),
        decreases n - k,
    {
        let token = if k < toks.len() - 2 {
            assert(t[k + 2] == toks@[k + 2]@);
            Some(toks[k + 2].as_str())
        } else {
            None
        };
        let v = match read(token, 1, n) {
            Ok(v) => v,
            Err(e) => {
                proof {
                    assert(boxes_upto(t, n, (k + 1) as nat) is Err);
                    lemma_boxes_stuck(t, n, (k + 1) as nat, n as nat);
                }
                return Err(e);
            },
        };
        if holds(&flat, v) {
            proof {
                assert(boxes_upto(t, n, (k + 1) as nat) is Err);
                lemma_boxes_stuck(t, n, (k + 1) as nat, n as nat);
            }
            let mut e = String::from_str("Duplicate box: ");
            e.append(decimal_string(v).as_str());
            return Err(e);
        }
        flat.push(v);
        k += 1;
    }
    Ok(flat)
}

/// Reads an instance from `f`.
///
/// The text holds the number of boxes, the number of stacks and then the
/// boxes, stack by stack from the bottom up, all parted by white space. It is
/// refused, with a complaint, where a number is missing or is none, where the
/// stacks cannot share the boxes evenly, and where the boxes are not each of
/// 1 to `n` once. An instance that is read is in order.
pub fn parse_input(f: &str) -> (r: Result<Input, String>)
    ensures
        match r {
            Ok(input) => parse_instance(f@) == Ok::<(usize, usize, Seq<Seq<usize>>), Seq<char>>(
                (input.n, input.m, input.stacks()),
            ) && input.wf(),
            Err(e) => parse_instance(f@) == Err::<(usize, usize, Seq<Seq<usize>>), Seq<char>>(e@),
        },
{
    let toks = split_tokens(f);
    let ghost t = tokens(f@);
    let first = if 0 < toks.len() {
        assert(t[0] == toks@[0]@);
        Some(toks[0].as_str())
    } else {
        None
    };
    let n = match read(first, 0, usize::MAX) {
        Ok(n) => n,
        Err(e) => {
            return Err(e);
        },
    };
    let second = if 1 < toks.len() {
        assert(t[1] == toks@[1]@);
        Some(toks[1].as_str())
    } else {
        None
    };
    let m = match read(second, 1, usize::MAX) {
        Ok(m) => m,
        Err(e) => {
            return Err(e);
        },
    };
    if n % m != 0 {
        let mut e = String::from_str("Uneven stacks: ");
        e.append(decimal_string(n).as_str());
        e.append(" / ");
        e.append(decimal_string(m).as_str());
        return Err(e);
    }
    let flat = match read_boxes(&toks, n) {
        Ok(flat) => flat,
        Err(e) => {
            return Err(e);
        },
    };
    let h = n / m;
    proof {
        lemma_boxes_upto(t, n, n as nat);
        lemma_rows_arranged(flat@, n as nat, m as nat);
        assert(n == m * h) by (nonlinear_arith)
            requires
                h == n / m,
                n % m == 0,
                m > 0,
        ;
    }
    let bs = cut_rows(&flat, m, h);
    Ok(Input { n, m, bs })
}

/// The boxes of the first `k` stacks in the order in which the text names
/// them.
pub open spec fn flat_upto(stacks: Seq<Seq<usize>>, k: int) -> Seq<usize>
    decreases k,
{
    if k <= 0 {
        Seq::empty()
    } else {
        flat_upto(stacks, k - 1) + stacks[k - 1]
    }
}

/// The decimal numerals of `row`.
pub open spec fn numerals(row: Seq<usize>) -> Seq<Seq<char>> {
    Seq::new(row.len(), |k: int| decimal(row[k] as nat))
}

/// A line of boxes and `rest`: the tokens are the numerals of the boxes and
/// then those of `rest`.
proof fn lemma_tokens_line(row: Seq<usize>, rest: Seq<char>)
    ensures
        tokens(joined(row, " "@) + "\n"@ + rest) == numerals(row) + tokens(rest),
    decreases row.len(),
{
    reveal_strlit(" ");
    reveal_strlit("\n");
    assert(" "@ =~= seq![' ']);
    assert("\n"@ =~= seq!['\n']);
    let text = joined(row, " "@) + "\n"@ + rest;
    if row.len() == 0 {
        assert(text =~= seq!['\n'] + rest);
        lemma_tokens_after_space('\n', rest);
        assert(numerals(row) + tokens(rest) =~= tokens(rest));
    } else if row.len() == 1 {
        lemma_tokens_numeral(row[0], '\n', rest);
        assert(numerals(row) =~= seq![decimal(row[0] as nat)]);
    } else {
        let tail = row.drop_first();
        let after = joined(tail, " "@) + "\n"@ + rest;
        assert(text =~= decimal(row[0] as nat) + seq![' '] + after);
        lemma_tokens_numeral(row[0], ' ', after);
        lemma_tokens_line(tail, rest);
        assert(numerals(row) =~= seq![decimal(row[0] as nat)] + numerals(tail));
        assert(seq![decimal(row[0] as nat)] + (numerals(tail) + tokens(rest)) =~= numerals(row)
            + tokens(rest));
    }
}

/// The lines of the first `k` stacks and `rest`: the tokens are the numerals
/// of their boxes and then those of `rest`.
proof fn lemma_tokens_rows(stacks: Seq<Seq<usize>>, k: int, rest: Seq<char>)
    requires
        0 <= k <= stacks.len(),
    ensures
        tokens(rows_text(stacks, k) + rest) == numerals(flat_upto(stacks, k)) + tokens(rest),
    decreases k,
{
    if k == 0 {
        assert(rows_text(stacks, k) + rest =~= rest);
        assert(numerals(flat_upto(stacks, k)) + tokens(rest) =~= tokens(rest));
    } else {
        let row = stacks[k - 1];
        let line = joined(row, " "@) + "\n"@ + rest;
        assert(rows_text(stacks, k) + rest =~= rows_text(stacks, k - 1) + line);
        lemma_tokens_rows(stacks, k - 1, line);
        lemma_tokens_line(row, rest);
        assert(numerals(flat_upto(stacks, k)) =~= numerals(flat_upto(stacks, k - 1)) + numerals(
            row,
        ));
        assert(numerals(flat_upto(stacks, k - 1)) + (numerals(row) + tokens(rest)) =~= numerals(
            flat_upto(stacks, k),
        ) + tokens(rest));
    }
}

/// Stacks of one height `h`, written one after the other, take `h` places
/// each.
proof fn lemma_flat_len(stacks: Seq<Seq<usize>>, k: int, h: nat)
    requires
        0 <= k <= stacks.len(),
        forall|i: int| 0 <= i < k ==> (#[trigger] stacks[i]).len() == h,
    ensures
        flat_upto(stacks, k).len() == row_start(k, h as int),
    decreases k,
{
    assert(row_start(0, h as int) == 0);
    if k > 0 {
        lemma_flat_len(stacks, k - 1, h);
        assert(stacks[k - 1].len() == h);
        assert(flat_upto(stacks, k).len() == flat_upto(stacks, k - 1).len() + h);
        assert(row_start(k, h as int) == row_start(k - 1, h as int) + h) by (nonlinear_arith)
            requires
                row_start(k, h as int) == k * h,
                row_start(k - 1, h as int) == (k - 1) * h,
        ;
    }
}

/// Stacks of one height `h`, written one after the other, put the box at
/// height `j` of stack `i` at place `i * h + j`.
proof fn lemma_flat_at(stacks: Seq<Seq<usize>>, k: int, h: nat, i: int, j: int)
    requires
        0 <= k <= stacks.len(),
        forall|i: int| 0 <= i < k ==> (#[trigger] stacks[i]).len() == h,
        0 <= i < k,
        0 <= j < h,
    ensures
        0 <= row_start(i, h as int) + j < flat_upto(stacks, k).len(),
        flat_upto(stacks, k)[row_start(i, h as int) + j] == stacks[i][j],
    decreases k,
{
    let shorter = flat_upto(stacks, k - 1);
    lemma_flat_len(stacks, k - 1, h);
    lemma_flat_len(stacks, k, h);
    assert(stacks[k - 1].len() == h);
    assert(row_start(k, h as int) == row_start(k - 1, h as int) + h) by (nonlinear_arith)
        requires
            row_start(k, h as int) == k * h,
            row_start(k - 1, h as int) == (k - 1) * h,
    ;
    if i < k - 1 {
        lemma_flat_at(stacks, k - 1, h, i, j);
    } else {
        assert(0 <= row_start(i, h as int)) by (nonlinear_arith)
            requires
                row_start(i, h as int) == i * h,
                0 <= i,
        ;
    }
}

/// Reading the numerals of different boxes from 1 to `n` gives the boxes.
proof fn lemma_boxes_read(t: Seq<Seq<char>>, flat: Seq<usize>, n: usize, k: nat)
    requires
        k <= flat.len(),
        t.len() == flat.len() + 2,
        forall|a: int| 0 <= a < flat.len() ==> #[trigger] t[a + 2] == decimal(flat[a] as nat),
        flat.no_duplicates(),
        forall|a: int| 0 <= a < flat.len() ==> 1 <= #[trigger] flat[a] <= n,
    ensures
        boxes_upto(t, n, k) == Ok::<Seq<usize>, Seq<char>>(flat.take(k as int)),
    decreases k,
{
    if k == 0 {
        assert(flat.take(0) =~= Seq::<usize>::empty());
    } else {
        lemma_boxes_read(t, flat, n, (k - 1) as nat);
        let v = flat[k - 1];
        assert(t[(k - 1) + 2] == decimal(v as nat));
        lemma_decimal_parses(v);
        assert(1 <= flat[k - 1] <= n);
        let seen = flat.take(k - 1);
        if seen.contains(v) {
            let a = choose|a: int| 0 <= a < seen.len() && seen[a] == v;
            assert(flat[a] == flat[k - 1]);
        }
        assert(seen.push(v) =~= flat.take(k as int));
    }
}

/// Reading what `to_string` wrote of an instance that is in order gives the
/// instance back.
pub proof fn lemma_round_trip(n: usize, m: usize, stacks: Seq<Seq<usize>>)
    requires
        well_formed(n as nat, m as nat, stacks),
    ensures
        parse_instance(instance_text(n, m, stacks)) == Ok::<
            (usize, usize, Seq<Seq<usize>>),
            Seq<char>,
        >((n, m, stacks)),
{
    reveal_strlit(" ");
    reveal_strlit("\n");
    assert(" "@ =~= seq![' ']);
    assert("\n"@ =~= seq!['\n']);
    let h = (n / m) as nat;
    let flat = flat_upto(stacks, m as int);
    let body = rows_text(stacks, m as int);
    let text = instance_text(n, m, stacks);
    let t = tokens(text);
    assert(n == m * h) by (nonlinear_arith)
        requires
            h == n / m,
            n % m == 0,
            m > 0,
    ;
    // The tokens are the two counts and the boxes.
    assert(text =~= decimal(n as nat) + seq![' '] + (decimal(m as nat) + seq!['\n'] + body));
    lemma_tokens_numeral(n, ' ', decimal(m as nat) + seq!['\n'] + body);
    lemma_tokens_numeral(m, '\n', body);
    assert(body + Seq::<char>::empty() =~= body);
    lemma_tokens_rows(stacks, m as int, Seq::empty());
    assert(t =~= seq![decimal(n as nat), decimal(m as nat)] + numerals(flat));
    lemma_decimal_parses(n);
    lemma_decimal_parses(m);
    // The boxes are different and lie from 1 to `n`.
    lemma_flat_len(stacks, m as int, h);
    assert(flat.len() == n);
    assert forall|a: int| 0 <= a < flat.len() implies 0 <= a / (h as int) < m && 0 <= a % (
    h as int) < h && #[trigger] flat[a] == stacks[a / (h as int)][a % (h as int)] by {
        let i = a / (h as int);
        let j = a % (h as int);
        assert(h > 0);
        assert(a == i * h + j && 0 <= j < h && 0 <= i < m) by (nonlinear_arith)
            requires
                i == a / (h as int),
                j == a % (h as int),
                0 <= a < m * h,
                h > 0,
        ;
        lemma_flat_at(stacks, m as int, h, i, j);
    }
    assert forall|a: int| 0 <= a < flat.len() implies 1 <= #[trigger] flat[a] <= n by {
        assert(flat[a] == stacks[a / (h as int)][a % (h as int)]);
    }
    assert(flat.no_duplicates()) by {
        assert forall|a: int, b: int| 0 <= a < flat.len() && 0 <= b < flat.len() && a
            != b implies flat[a] != flat[b] by {
            let i = a / (h as int);
            let j = a % (h as int);
            let c = b / (h as int);
            let d = b % (h as int);
            assert(flat[a] == stacks[i][j]);
            assert(flat[b] == stacks[c][d]);
            if flat[a] == flat[b] {
                assert(stacks[i][j] == stacks[c][d]);
                assert(i == c && j == d);
                assert(a == b) by (nonlinear_arith)
                    requires
                        i == a / (h as int),
                        j == a % (h as int),
                        i == b / (h as int),
                        j == b % (h as int),
                        h > 0,
                ;
            }
        }
    }
    assert forall|a: int| 0 <= a < flat.len() implies #[trigger] t[a + 2] == decimal(
        flat[a] as nat,
    ) by {
        assert(numerals(flat)[a] == decimal(flat[a] as nat));
    }
    lemma_boxes_read(t, flat, n, n as nat);
    assert(flat.take(n as int) =~= flat);
    // Cut into stacks again, the boxes lie as they did.
    assert(rows(flat, m as nat, h) =~= stacks) by {
        assert forall|i: int| 0 <= i < m implies #[trigger] rows(flat, m as nat, h)[i]
            =~= stacks[i] by {
            assert(row_start(i + 1, h as int) == row_start(i, h as int) + h && 0 <= row_start(
                i,
                h as int,
            ) && row_start(i, h as int) + h <= m * h) by (nonlinear_arith)
                requires
                    0 <= i < m,
                    row_start(i + 1, h as int) == (i + 1) * h,
                    row_start(i, h as int) == i * h,
            ;
            assert forall|j: int| 0 <= j < h implies rows(flat, m as nat, h)[i][j]
                == stacks[i][j] by {
                lemma_flat_at(stacks, m as int, h, i, j);
            }
        }
    }
}

} // verus!

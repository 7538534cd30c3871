//! The puzzle instance: what it holds, how one is drawn from a seed.

use itertools::Itertools;
use rand::seq::SliceRandom;
use rand::SeedableRng;
use vstd::prelude::*;

verus! {

/// The number of boxes of a drawn instance.
pub const BOX_COUNT: usize = 200;

/// The number of stacks of a drawn instance.
pub const STACK_COUNT: usize = 10;

/// The stacks held by `bs`, each listed from the bottom up.
pub open spec fn layers(bs: Vec<Vec<usize>>) -> Seq<Seq<usize>> {
    Seq::new(bs@.len(), |i: int| bs@[i]@)
}

/// `v` lies somewhere on the stacks.
pub open spec fn present(stacks: Seq<Seq<usize>>, v: usize) -> bool {
    exists|i: int| 0 <= i < stacks.len() && #[trigger] stacks[i].contains(v)
}

/// The stacks hold each box from `lo + 1` to `n` once, and nothing else.
pub open spec fn arranged(stacks: Seq<Seq<usize>>, lo: nat, n: nat) -> bool {
    &&& forall|i: int, j: int|
        0 <= i < stacks.len() && 0 <= j < stacks[i].len() ==> lo < #[trigger] stacks[i][j] <= n
    &&& forall|i: int, j: int, a: int, b: int|
        #![trigger stacks[i][j], stacks[a][b]]
        0 <= i < stacks.len() && 0 <= j < stacks[i].len() && 0 <= a < stacks.len() && 0 <= b
            < stacks[a].len() && stacks[i][j] == stacks[a][b] ==> i == a && j == b
    &&& forall|v: usize| lo < v <= n ==> present(stacks, v)
}

/// A puzzle instance: `n` boxes on `m` stacks.
#[derive(Clone, Debug)]
pub struct Input {
    pub n: usize,
    pub m: usize,
    pub bs: Vec<Vec<usize>>,
}

/// The instance is in order: there is a stack, the stacks are `m` and of one
/// height, and they hold each box from 1 to `n` once and nothing else.
pub open spec fn well_formed(n: nat, m: nat, stacks: Seq<Seq<usize>>) -> bool {
    &&& m > 0
    &&& n % m == 0
    &&& stacks.len() == m
    &&& forall|i: int| 0 <= i < m ==> (#[trigger] stacks[i]).len() == n / m
    &&& arranged(stacks, 0, n)
}

impl Input {
    /// The initial stacks, each listed from the bottom up.
    pub open spec fn stacks(&self) -> Seq<Seq<usize>> {
        layers(self.bs)
    }

    /// The instance is in order.
    pub open spec fn wf(&self) -> bool {
        well_formed(self.n as nat, self.m as nat, self.stacks())
    }
}

/// The numbers from `first` to `last`, in order.
pub open spec fn counting(first: usize, last: usize) -> Seq<usize> {
    if first <= last {
        Seq::new((last - first + 1) as nat, |i: int| (first + i) as usize)
    } else {
        Seq::empty()
    }
}

/// The height of stack `s` once `count` items were dealt out to `m` stacks
/// in turn.
pub open spec fn dealt_height(count: int, m: int, s: int) -> int {
    (count + m - 1 - s) / m
}

/// The place in the dealing of the item that lies at height `h` of stack
/// `s`.
pub open spec fn dealt_place(h: int, m: int, s: int) -> int {
    h * m + s
}

/// The stacks that come of dealing `items` out to `m` stacks in turn: the
/// item at place `k` goes on top of stack `k % m`.
pub open spec fn dealt(items: Seq<usize>, m: nat) -> Seq<Seq<usize>> {
    Seq::new(
        m,
        |s: int|
            Seq::new(
                dealt_height(items.len() as int, m as int, s) as nat,
                |h: int| items[dealt_place(h, m as int, s)],
            ),
    )
}

/// The order in which `shuffle` of rand's `SliceRandom` leaves `items` when
/// its numbers are drawn from a `ChaCha20Rng` of rand_chacha that was seeded
/// with `seed` by `seed_from_u64`.
pub uninterp spec fn shuffled(seed: u64, items: Seq<usize>) -> Seq<usize>;

/// `Itertools::collect_vec` on the range from `first` to `last`, both
/// included: the numbers of the range, in order.
#[verifier::external_body]
fn count_up(first: usize, last: usize) -> (v: Vec<usize>)
    ensures
        v@ == counting(first, last),
{
    (first..=last).collect_vec()
}

/// `SliceRandom::shuffle` of rand with a `ChaCha20Rng` of rand_chacha that
/// `SeedableRng::seed_from_u64` made of `seed`. The shuffle only swaps
/// items, so the same items are there afterwards; their order is a function
/// of the seed and of the items.
#[verifier::external_body]
fn shuffle_seeded(items: &mut Vec<usize>, seed: u64)
    ensures
        final(items)@ == shuffled(seed, old(items)@),
        final(items)@.to_multiset() == old(items)@.to_multiset(),
{
    let mut rng = rand_chacha::ChaCha20Rng::seed_from_u64(seed);
    items.shuffle(&mut rng);
}

/// Deals `items` out to `m` stacks in turn.
fn deal(items: &Vec<usize>, m: usize) -> (bs: Vec<Vec<usize>>)
    requires
        m > 0,
    ensures
        layers(bs) == dealt(items@, m as nat),
        bs@.len() == m,
{
    let mut bs: Vec<Vec<usize>> = Vec::new();
    let mut s: usize = 0;
    while s < m
        invariant
            s <= m,
            bs@.len() == s,
            forall|k: int| 0 <= k < s ==> (#[trigger] bs@[k])@.len() == 0,
        decreases m - s,
    {
        bs.push(Vec::new());
        s += 1;
    }
    let mut i: usize = 0;
    assert forall|k: int| 0 <= k < m implies dealt_height(0, m as int, k) == 0 by {
        assert((m - 1 - k) / (m as int) == 0) by (nonlinear_arith)
            requires
                0 <= k < m,
        ;
    }
    while i < items.len()
        invariant
            m > 0,
            i <= items@.len(),
            bs@.len() == m,
            forall|k: int|
                0 <= k < m ==> (#[trigger] bs@[k])@.len() == dealt_height(i as int, m as int, k),
            forall|k: int, h: int|
                0 <= k < m && 0 <= h < bs@[k]@.len() ==> #[trigger] bs@[k]@[h] == items@[h * m + k],
        decreases items@.len() - i,
    {
        let ghost before = bs@;
        let s = i % m;
        proof {
            lemma_deal_step(i as int, m as int);
        }
        bs[s].push(items[i]);
        i += 1;
        assert forall|k: int| 0 <= k < m implies (#[trigger] bs@[k])@.len() == dealt_height(
            i as int,
            m as int,
            k,
        ) by {
            assert(dealt_height(i as int, m as int, k) == dealt_height(i - 1, m as int, k) + (if k
                == s {
                1int
            } else {
                0int
            }));
            if k != s {
                assert(bs@[k] == before[k]);
            }
        }
        assert forall|k: int, h: int| 0 <= k < m && 0 <= h < bs@[k]@.len() implies #[trigger] bs@[k]@[h]
            == items@[h * m + k] by {
            if k != s {
                assert(bs@[k] == before[k]);
            } else if h < before[k]@.len() {
                assert(bs@[k]@[h] == before[k]@[h]);
            }
        }
    }
    assert(layers(bs) =~= dealt(items@, m as nat)) by {
        assert forall|k: int| 0 <= k < m implies #[trigger] layers(bs)[k] =~= dealt(
            items@,
            m as nat,
        )[k] by {}
    }
    bs
}

/// What dealing item `i` changes: stack `i % m` grows from `i / m` to one
/// more, the others keep their height.
proof fn lemma_deal_step(i: int, m: int)
    requires
        0 <= i,
        m > 0,
    ensures
        dealt_height(i, m, i % m) == i / m,
        dealt_height(i + 1, m, i % m) == i / m + 1,
        (i / m) * m + i % m == i,
        forall|k: int|
            0 <= k < m && k != i % m ==> #[trigger] dealt_height(i + 1, m, k) == dealt_height(
                i,
                m,
                k,
            ),
{
    let q = i / m;
    let r = i % m;
    assert(i == q * m + r) by (nonlinear_arith)
        requires
            q == i / m,
            r == i % m,
            m > 0,
    ;
    assert((q * m + m - 1) / m == q) by (nonlinear_arith)
        requires
            m > 0,
    ;
    assert((q * m + m) / m == q + 1) by (nonlinear_arith)
        requires
            m > 0,
    ;
    assert forall|k: int| 0 <= k < m && k != r implies #[trigger] dealt_height(i + 1, m, k)
        == dealt_height(i, m, k) by {
        assert((q * m + r + m - k) / m == (q * m + r + m - 1 - k) / m) by (nonlinear_arith)
            requires
                m > 0,
                0 <= r < m,
                0 <= k < m,
                k != r,
        ;
    }
}

/// `input` is the instance of `seed`: 200 boxes on 10 stacks, dealt out in
/// turn in the order that the seed gives them.
pub open spec fn drawn(input: Input, seed: u64) -> bool {
    &&& input.n == BOX_COUNT
    &&& input.m == STACK_COUNT
    &&& input.stacks() == dealt(shuffled(seed, counting(1, BOX_COUNT)), STACK_COUNT as nat)
}

/// Two instances of one seed are the same: as many boxes, as many stacks,
/// the same boxes in the same places.
pub proof fn lemma_same_seed(a: Input, b: Input, seed: u64)
    requires
        drawn(a, seed),
        drawn(b, seed),
    ensures
        a.n == b.n,
        a.m == b.m,
        a.stacks() == b.stacks(),
{
}

/// Draws the instance of the seed: the boxes 1 to 200 in the order that the
/// seed gives them, dealt out to 10 stacks in turn.
pub fn gen(seed: u64) -> (r: Input)
    ensures
        drawn(r, seed),
        r.wf(),
{
    let n = BOX_COUNT;
    let m = STACK_COUNT;
    let mut is = count_up(1, n);
    let ghost boxes = is@;
    shuffle_seeded(&mut is, seed);
    let bs = deal(&is, m);
    proof {
        lemma_dealt_arranged(boxes, is@, n as nat, m as nat);
    }
    Input { n, m, bs }
}

/// Boxes 1 to `n` in any order, dealt out to `m` stacks where `m` divides
/// `n`, make an instance that is in order.
pub proof fn lemma_dealt_arranged(boxes: Seq<usize>, items: Seq<usize>, n: nat, m: nat)
    requires
        n <= usize::MAX,
        boxes == counting(1, n as usize),
        items.to_multiset() == boxes.to_multiset(),
        m > 0,
        n % m == 0,
    ensures
        well_formed(n, m, dealt(items, m)),
{
    let stacks = dealt(items, m);
    let h = n / m;
    assert(boxes.len() == n);
    assert(items.len() == n) by {
        vstd::seq_lib::to_multiset_len(items);
        vstd::seq_lib::to_multiset_len(boxes);
    }
    assert(n == h * m) by (nonlinear_arith)
        requires
            h == n / m,
            n % m == 0,
            m > 0,
    ;
    assert forall|s: int| 0 <= s < m implies (#[trigger] stacks[s]).len() == h by {
        assert((h * m + m - 1 - s) / (m as int) == h) by (nonlinear_arith)
            requires
                0 <= s < m,
                h >= 0,
        ;
        assert(dealt_height(n as int, m as int, s) == h);
    }
    assert forall|s: int, k: int| 0 <= s < m && 0 <= k < h implies 0 <= #[trigger] dealt_place(
        k,
        m as int,
        s,
    ) < n by {
        assert(0 <= k * m + s < h * m) by (nonlinear_arith)
            requires
                0 <= s < m,
                0 <= k < h,
        ;
    }
    assert(boxes.no_duplicates());
    boxes.lemma_multiset_has_no_duplicates();
    items.lemma_multiset_has_no_duplicates_conv();
    assert forall|i: int, j: int| 0 <= i < stacks.len() && 0 <= j < stacks[i].len() implies 0
        < #[trigger] stacks[i][j] <= n by {
        let v = stacks[i][j];
        assert(0 <= dealt_place(j, m as int, i) < n);
        assert(v == items[j * m + i]);
        assert(items.contains(v));
        vstd::seq_lib::to_multiset_contains(items, v);
        vstd::seq_lib::to_multiset_contains(boxes, v);
        assert(boxes.contains(v));
    }
    assert forall|i: int, j: int, a: int, b: int|
        #![trigger stacks[i][j], stacks[a][b]]
        0 <= i < stacks.len() && 0 <= j < stacks[i].len() && 0 <= a < stacks.len() && 0 <= b
            < stacks[a].len() && stacks[i][j] == stacks[a][b] implies i == a && j == b by {
        assert(0 <= dealt_place(j, m as int, i) < n);
        assert(0 <= dealt_place(b, m as int, a) < n);
        assert(items[j * m + i] == items[b * m + a]);
        assert(j * m + i == b * m + a);
        assert(i == a && j == b) by (nonlinear_arith)
            requires
                j * m + i == b * m + a,
                0 <= i < m,
                0 <= a < m,
                0 <= j,
                0 <= b,
        ;
    }
    assert forall|v: usize| 0 < v <= n implies present(stacks, v) by {
        assert(boxes[v - 1] == v);
        assert(boxes.contains(v));
        vstd::seq_lib::to_multiset_contains(items, v);
        vstd::seq_lib::to_multiset_contains(boxes, v);
        assert(items.contains(v));
        let k = choose|k: int| 0 <= k < items.len() && items[k] == v;
        let s = k % (m as int);
        let q = k / (m as int);
        lemma_deal_step(k, m as int);
        assert(q < h) by (nonlinear_arith)
            requires
                q * m + s == k,
                k < h * m,
                0 <= s,
                m > 0,
        ;
        assert(stacks[s][q] == v);
        assert(stacks[s].contains(v));
    }
}

} // verus!

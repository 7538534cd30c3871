//! The picture of the stacks: where each box is drawn, and the drawing.

use crate::input::{layers, Input};
use crate::markup::{
    append_element, assign_text, element_attributes, element_children, element_name,
    element_string, element_text, new_element, no_attributes, no_children, rect, rect_attributes,
    txt, txt_attributes,
};
use crate::output::Output;
use crate::replay::{
    compute_score_details, lemma_run_arranged, run, verdict_message, verdict_score,
};
use crate::text::{decimal, decimal_string, words};
use svg::node::element::Element;
use vstd::prelude::*;
use vstd::string::*;

verus! {

/// The side of the square that the stacks are drawn in.
pub const CANVAS: usize = 800;

/// The widest row of stacks that can be drawn: a stack is at least two wide.
pub const MAX_STACKS: usize = 400;

/// The height of the tallest of the first `k` stacks.
pub open spec fn tallest_upto(stacks: Seq<Seq<usize>>, k: int) -> nat
    decreases k,
{
    if k <= 0 {
        0
    } else if stacks[k - 1].len() > tallest_upto(stacks, k - 1) {
        stacks[k - 1].len()
    } else {
        tallest_upto(stacks, k - 1)
    }
}

/// The number of rows of the picture: twice the height that the stacks of
/// `n` boxes on `m` stacks start with, or the height of the tallest stack
/// where that is more.
pub open spec fn row_count(n: usize, m: usize, stacks: Seq<Seq<usize>>) -> nat {
    if tallest_upto(stacks, stacks.len() as int) > 2 * n / (m as int) {
        tallest_upto(stacks, stacks.len() as int)
    } else {
        (2 * n / (m as int)) as nat
    }
}

/// The measures of a picture.
pub struct Grid {
    /// The number of rows.
    pub rows: nat,
    /// The width of a stack.
    pub width: nat,
    /// The height of a box.
    pub height: nat,
    /// The size of the letters.
    pub font: nat,
}

/// The measures of the picture of `stacks`, for an instance of `n` boxes
/// and `m` stacks.
pub open spec fn grid(n: usize, m: usize, stacks: Seq<Seq<usize>>) -> Grid {
    let rows = row_count(n, m, stacks);
    Grid {
        rows,
        width: (CANVAS as int / m as int) as nat,
        height: (CANVAS as int / rows as int) as nat,
        font: (32 * n / (m as int) / (rows as int)) as nat,
    }
}

/// The left edge of the boxes of stack `i`.
pub open spec fn box_left(g: Grid, i: int) -> int {
    i * g.width + 1
}

/// The upper edge of the box at height `j`.
pub open spec fn box_top(g: Grid, j: int) -> int {
    (g.rows - j - 1) * g.height
}

/// What is drawn for box `v` at height `j` of stack `i`: its rectangle,
/// filled with the colour `fills[v]`, and its number in the middle.
pub open spec fn box_marks(g: Grid, i: int, j: int, v: usize, fills: Seq<Seq<char>>) -> Seq<
    Seq<char>,
> {
    seq![
        element_text(
            "rect"@,
            rect_attributes(
                box_left(g, i) as usize,
                box_top(g, j) as usize,
                (g.width - 2) as usize,
                g.height as usize,
                fills[v as int],
            ),
            no_children(),
        ),
        element_text(
            "text"@,
            txt_attributes(
                (i * g.width + g.width / 2) as usize,
                (box_top(g, j) + g.height / 2) as usize,
            ),
            seq![decimal(v as nat)],
        ),
    ]
}

/// What is drawn for the lowest `k` boxes of `stack`, which is stack `i`.
pub open spec fn stack_marks(g: Grid, i: int, stack: Seq<usize>, k: int, fills: Seq<Seq<char>>) -> Seq<
    Seq<char>,
>
    decreases k,
{
    if k <= 0 {
        Seq::empty()
    } else {
        stack_marks(g, i, stack, k - 1, fills) + box_marks(g, i, k - 1, stack[k - 1], fills)
    }
}

/// What is drawn for the first `k` stacks.
pub open spec fn marks_upto(g: Grid, stacks: Seq<Seq<usize>>, k: int, fills: Seq<Seq<char>>) -> Seq<
    Seq<char>,
>
    decreases k,
{
    if k <= 0 {
        Seq::empty()
    } else {
        marks_upto(g, stacks, k - 1, fills) + stack_marks(
            g,
            k - 1,
            stacks[k - 1],
            stacks[k - 1].len() as int,
            fills,
        )
    }
}

/// The style sheet of a picture with letters of the given size.
pub open spec fn style_text(size: nat) -> Seq<char> {
    element_text(
        "style"@,
        no_attributes(),
        seq![
            "text {text-anchor: middle;dominant-baseline: central; font-size: "@ + decimal(size)
                + "}"@,
        ],
    )
}

/// The attributes of the document: a white square of the canvas and a
/// margin of 5 on each side.
pub open spec fn document_attributes() -> Map<Seq<char>, Seq<char>> {
    no_attributes().insert("xmlns"@, "http://www.w3.org/2000/svg"@).insert("id"@, "vis"@).insert(
        "viewBox"@,
        "-5 -5 "@ + decimal((CANVAS + 10) as nat) + " "@ + decimal((CANVAS + 10) as nat),
    ).insert("width"@, decimal((CANVAS + 10) as nat)).insert(
        "height"@,
        decimal((CANVAS + 10) as nat),
    ).insert("style"@, "background-color:white"@)
}

/// The picture of `stacks` for an instance of `n` boxes and `m` stacks: the
/// style sheet, then the boxes of the first `m` stacks, stack by stack from
/// the bottom up.
pub open spec fn picture_text(n: usize, m: usize, stacks: Seq<Seq<usize>>, fills: Seq<Seq<char>>) -> Seq<
    char,
> {
    let g = grid(n, m, stacks);
    element_text(
        "svg"@,
        document_attributes(),
        seq![style_text(g.font)] + marks_upto(g, stacks, m as int, fills),
    )
}

/// Every box on the stacks has its colour in a list of `count` colours.
pub open spec fn coloured(stacks: Seq<Seq<usize>>, count: nat) -> bool {
    forall|i: int, j: int|
        0 <= i < stacks.len() && 0 <= j < stacks[i].len() ==> #[trigger] stacks[i][j] < count
}

/// The height of the tallest stack.
fn tallest(bs: &Vec<Vec<usize>>) -> (r: usize)
    ensures
        r == tallest_upto(layers(*bs), bs@.len() as int),
        forall|i: int| 0 <= i < bs@.len() ==> (#[trigger] bs@[i])@.len() <= r,
{
    let mut r: usize = 0;
    let mut i: usize = 0;
    while i < bs.len()
        invariant
            i <= bs@.len(),
            r == tallest_upto(layers(*bs), i as int),
            forall|k: int| 0 <= k < i ==> (#[trigger] bs@[k])@.len() <= r,
        decreases bs@.len() - i,
    {
        assert(layers(*bs)[i as int] == bs@[i as int]@);
        if bs[i].len() > r {
            r = bs[i].len();
        }
        i += 1;
    }
    r
}

/// The document with nothing drawn in it yet but its style sheet.
fn sheet(font: usize) -> (doc: Element)
    ensures
        element_name(doc) == "svg"@,
        element_attributes(doc) == document_attributes(),
        element_children(doc) == seq![style_text(font as nat)],
{
    let side = decimal_string(CANVAS + 10);
    let mut view = String::from_str("-5 -5 ");
    view.append(side.as_str());
    view.append(" ");
    view.append(side.as_str());
    let doc = new_element("svg");
    let doc = assign_text(doc, "xmlns", "http://www.w3.org/2000/svg");
    let doc = assign_text(doc, "id", "vis");
    let doc = assign_text(doc, "viewBox", view.as_str());
    let doc = assign_text(doc, "width", side.as_str());
    let doc = assign_text(doc, "height", side.as_str());
    let doc = assign_text(doc, "style", "background-color:white");
    let mut rule = String::from_str(
        "text {text-anchor: middle;dominant-baseline: central; font-size: ",
    );
    rule.append(decimal_string(font).as_str());
    rule.append("}");
    let style = new_element("style");
    let style = crate::markup::append_text(style, rule.as_str());
    assert(element_children(style) =~= seq![rule@]);
    let doc = append_element(doc, style);
    assert(element_children(doc) =~= seq![style_text(font as nat)]);
    doc
}

/// Draws the stacks `bs` of an instance of `input.n` boxes and `input.m`
/// stacks, box `v` in the colour `fills[v]`.
pub fn draw(input: &Input, bs: &Vec<Vec<usize>>, fills: &Vec<String>) -> (s: String)
    requires
        0 < input.m <= MAX_STACKS,
        bs@.len() == input.m,
        32 * input.n <= usize::MAX,
        row_count(input.n, input.m, layers(*bs)) > 0,
        coloured(layers(*bs), fills@.len() as nat),
    ensures
        s@ == picture_text(input.n, input.m, layers(*bs), words(*fills)),
{
    let n = input.n;
    let m = input.m;
    let ghost stacks = layers(*bs);
    let ghost colours = words(*fills);
    let ghost g = grid(n, m, stacks);
    let high = tallest(bs);
    let least = 2 * n / m;
    let rows = if high > least {
        high
    } else {
        least
    };
    let w = CANVAS / m;
    let h = CANVAS / rows;
    let font = 32 * n / m / rows;
    assert(g.rows == rows && g.width == w && g.height == h && g.font == font);
    assert(w >= 2 && m * w <= CANVAS) by (nonlinear_arith)
        requires
            0 < m <= 400,
            w == 800usize / m,
    ;
    assert(rows * h <= CANVAS) by (nonlinear_arith)
        requires
            0 < rows,
            h == 800usize / rows,
    ;
    let mut doc = sheet(font);
    let mut i: usize = 0;
    assert(element_children(doc) =~= seq![style_text(g.font)] + marks_upto(g, stacks, 0, colours));
    while i < m
        invariant
            i <= m == bs@.len(),
            stacks == layers(*bs),
            colours == words(*fills),
            g == grid(n, m, stacks),
            g.rows == rows && g.width == w && g.height == h,
            w >= 2 && m * w <= CANVAS,
            rows * h <= CANVAS,
            coloured(stacks, fills@.len() as nat),
            forall|k: int| 0 <= k < bs@.len() ==> (#[trigger] bs@[k])@.len() <= rows,
            element_name(doc) == "svg"@,
            element_attributes(doc) == document_attributes(),
            element_children(doc) == seq![style_text(g.font)] + marks_upto(
                g,
                stacks,
                i as int,
                colours,
            ),
        decreases m - i,
    {
        let ghost done = seq![style_text(g.font)] + marks_upto(g, stacks, i as int, colours);
        let ghost stack = stacks[i as int];
        assert(stack == bs@[i as int]@);
        assert(i * w + w <= CANVAS) by (nonlinear_arith)
            requires
                i < m,
                m * w <= 800,
        ;
        let mut j: usize = 0;
        assert(element_children(doc) =~= done + stack_marks(g, i as int, stack, 0, colours));
        while j < bs[i].len()
            invariant
                i < m == bs@.len(),
                stacks == layers(*bs),
                colours == words(*fills),
                stack == bs@[i as int]@,
                stack == stacks[i as int],
                j <= stack.len() <= rows,
                g.rows == rows && g.width == w && g.height == h,
                w >= 2,
                i * w + w <= CANVAS,
                rows * h <= CANVAS,
                coloured(stacks, fills@.len() as nat),
                element_name(doc) == "svg"@,
                element_attributes(doc) == document_attributes(),
                element_children(doc) == done + stack_marks(g, i as int, stack, j as int, colours),
            decreases stack.len() - j,
        {
            let ghost drawn = done + stack_marks(g, i as int, stack, j as int, colours);
            let v = bs[i][j];
            assert(stacks[i as int][j as int] == v);
            assert(v < fills@.len());
            assert(colours[v as int] == fills@[v as int]@);
            let up = rows - j - 1;
            assert(up * h + h <= CANVAS) by (nonlinear_arith)
                requires
                    up < rows,
                    rows * h <= 800,
            ;
            let top = up * h;
            let shape = rect(i * w + 1, top, w - 2, h, fills[v].as_str());
            let label = txt(i * w + w / 2, top + h / 2, decimal_string(v).as_str());
            doc = append_element(doc, shape);
            doc = append_element(doc, label);
            j += 1;
            assert(element_children(doc) =~= drawn + box_marks(
                g,
                i as int,
                j - 1,
                v,
                colours,
            ));
            assert(drawn + box_marks(g, i as int, j - 1, v, colours) =~= done + stack_marks(
                g,
                i as int,
                stack,
                j as int,
                colours,
            ));
        }
        i += 1;
        assert(done + stack_marks(g, i - 1, stack, stack.len() as int, colours) =~= seq![
            style_text(g.font),
        ] + marks_upto(g, stacks, i as int, colours));
    }
    element_string(&doc)
}

/// Replays the first `turn` moves of `output` on `input` and draws the
/// stacks as the replay leaves them, box `v` in the colour `fills[v]`.
///
/// Returns the score and the message of the replay, and the picture.
pub fn vis(input: &Input, output: &Output, turn: usize, fills: &Vec<String>) -> (r: (
    i64,
    String,
    String,
))
    requires
        input.wf(),
        input.n > 0,
        input.m <= MAX_STACKS,
        32 * input.n <= usize::MAX,
        output.fits(input),
        fills@.len() > input.n,
    ensures
        r.0 == verdict_score(run(input.stacks(), output.out@, turn as nat)),
        r.1@ == verdict_message(run(input.stacks(), output.out@, turn as nat), input.n as nat),
        r.2@ == picture_text(
            input.n,
            input.m,
            run(input.stacks(), output.out@, turn as nat).tally.stacks,
            words(*fills),
        ),
{
    let (score, err, bs) = compute_score_details(input, output.out.as_slice(), turn);
    proof {
        let left = run(input.stacks(), output.out@, turn as nat).tally;
        lemma_run_arranged(input.stacks(), output.out@, turn as nat, input.n as nat);
        assert(bs@.len() == layers(bs).len());
        assert(2 * input.n / (input.m as int) >= 2) by (nonlinear_arith)
            requires
                input.n > 0,
                input.m > 0,
                input.n % input.m == 0,
        ;
    }
    let svg = draw(input, &bs, fills);
    (score, err, svg)
}

} // verus!

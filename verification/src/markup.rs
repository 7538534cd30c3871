//! The elements of a drawing, built with the svg crate.

use crate::text::{decimal, decimal_string};
use svg::node::element::Element;
use svg::Node;
use vstd::prelude::*;
use vstd::string::*;

verus! {

/// `Element` of svg: a tag with its attributes and its children. What one
/// holds is known only through the three names below.
#[verifier::external_type_specification]
#[verifier::external_body]
pub struct ExElement(svg::node::element::Element);

/// The tag of an `Element` of svg.
pub uninterp spec fn element_name(e: Element) -> Seq<char>;

/// The attributes that an `Element` of svg holds: the value of each name.
pub uninterp spec fn element_attributes(e: Element) -> Map<Seq<char>, Seq<char>>;

/// The children that an `Element` of svg holds, in order, each as the text
/// that it is written as.
pub uninterp spec fn element_children(e: Element) -> Seq<Seq<char>>;

/// The text that the `Display` of svg's `Element` writes for a tag, its
/// attributes and the texts of its children.
pub uninterp spec fn element_text(
    name: Seq<char>,
    attributes: Map<Seq<char>, Seq<char>>,
    children: Seq<Seq<char>>,
) -> Seq<char>;

/// No attribute at all.
pub open spec fn no_attributes() -> Map<Seq<char>, Seq<char>> {
    Map::empty()
}

/// No child at all.
pub open spec fn no_children() -> Seq<Seq<char>> {
    Seq::empty()
}

/// `Element::new` of svg: an element of the given tag with no attribute and
/// no child.
#[verifier::external_body]
pub(crate) fn new_element(tag: &str) -> (e: Element)
    ensures
        element_name(e) == tag@,
        element_attributes(e) == no_attributes(),
        element_children(e) == no_children(),
{
    Element::new(tag)
}

/// `Node::assign` of svg on an `Element`, with a text as the value: the
/// attribute is inserted under its name, in place of one of that name; tag
/// and children stay.
#[verifier::external_body]
pub(crate) fn assign_text(e: Element, name: &str, value: &str) -> (out: Element)
    ensures
        element_name(out) == element_name(e),
        element_attributes(out) == element_attributes(e).insert(name@, value@),
        element_children(out) == element_children(e),
{
    let mut out = e;
    out.assign(name, value);
    out
}

/// `Node::append` of svg on an `Element`, with an `Element` as the child: it
/// becomes the last child, written as its `Display` writes it; tag and
/// attributes stay.
#[verifier::external_body]
pub(crate) fn append_element(e: Element, child: Element) -> (out: Element)
    ensures
        element_name(out) == element_name(e),
        element_attributes(out) == element_attributes(e),
        element_children(out) == element_children(e).push(
            element_text(element_name(child), element_attributes(child), element_children(child)),
        ),
{
    let mut out = e;
    out.append(child);
    out
}

/// `Node::append` of svg on an `Element`, with a `Text` node of svg made of
/// `content` by `Text::new` as the child: it becomes the last child and is
/// written as `content`; tag and attributes stay.
#[verifier::external_body]
pub(crate) fn append_text(e: Element, content: &str) -> (out: Element)
    ensures
        element_name(out) == element_name(e),
        element_attributes(out) == element_attributes(e),
        element_children(out) == element_children(e).push(content@),
{
    let mut out = e;
    out.append(svg::node::Text::new(content));
    out
}

/// `to_string` on an `Element` of svg, that is its `Display`: the text of
/// its tag, attributes and children.
#[verifier::external_body]
pub(crate) fn element_string(e: &Element) -> (s: String)
    ensures
        s@ == element_text(element_name(*e), element_attributes(*e), element_children(*e)),
{
    e.to_string()
}

/// The attributes of the rectangle of a box.
pub open spec fn rect_attributes(x: usize, y: usize, w: usize, h: usize, fill: Seq<char>) -> Map<
    Seq<char>,
    Seq<char>,
> {
    no_attributes().insert("x"@, decimal(x as nat)).insert(
        "y"@,
        decimal(y as nat),
    ).insert("width"@, decimal(w as nat)).insert("height"@, decimal(h as nat)).insert(
        "fill"@,
        fill,
    ).insert("stroke-width"@, "1"@)
}

/// The attributes of a label.
pub open spec fn txt_attributes(x: usize, y: usize) -> Map<Seq<char>, Seq<char>> {
    no_attributes().insert("x"@, decimal(x as nat)).insert(
        "y"@,
        decimal(y as nat),
    ).insert("fill"@, "black"@).insert("font-size"@, "20"@).insert(
        "dominant-baseline"@,
        "central"@,
    ).insert("text-anchor"@, "middle"@)
}

/// The attributes of a ring.
pub open spec fn circle_attributes(x: usize, y: usize, r: usize, stroke: Seq<char>) -> Map<
    Seq<char>,
    Seq<char>,
> {
    no_attributes().insert("cx"@, decimal(x as nat)).insert(
        "cy"@,
        decimal(y as nat),
    ).insert("r"@, decimal(r as nat)).insert("stroke"@, stroke).insert(
        "fill"@,
        "transparent"@,
    ).insert("stroke-width"@, "3"@)
}

/// The attributes of a stroke from one point to another.
pub open spec fn line_attributes(
    x1: usize,
    y1: usize,
    x2: usize,
    y2: usize,
    color: Seq<char>,
) -> Map<Seq<char>, Seq<char>> {
    no_attributes().insert("x1"@, decimal(x1 as nat)).insert(
        "y1"@,
        decimal(y1 as nat),
    ).insert("x2"@, decimal(x2 as nat)).insert("y2"@, decimal(y2 as nat)).insert(
        "stroke"@,
        color,
    ).insert("stroke-width"@, "3"@).insert("stroke-linecap"@, "round"@)
}

/// A rectangle with its upper left corner at `(x, y)`, `w` wide and `h`
/// high, filled with `fill`.
pub fn rect(x: usize, y: usize, w: usize, h: usize, fill: &str) -> (e: Element)
    ensures
        element_name(e) == "rect"@,
        element_attributes(e) == rect_attributes(x, y, w, h, fill@),
        element_children(e) == no_children(),
{
    let e = new_element("rect");
    let e = assign_text(e, "x", decimal_string(x).as_str());
    let e = assign_text(e, "y", decimal_string(y).as_str());
    let e = assign_text(e, "width", decimal_string(w).as_str());
    let e = assign_text(e, "height", decimal_string(h).as_str());
    let e = assign_text(e, "fill", fill);
    assign_text(e, "stroke-width", "1")
}

/// The label `text`, centred on `(x, y)`.
pub fn txt(x: usize, y: usize, text: &str) -> (e: Element)
    ensures
        element_name(e) == "text"@,
        element_attributes(e) == txt_attributes(x, y),
        element_children(e) == seq![text@],
{
    let e = new_element("text");
    let e = append_text(e, text);
    let e = assign_text(e, "x", decimal_string(x).as_str());
    let e = assign_text(e, "y", decimal_string(y).as_str());
    let e = assign_text(e, "fill", "black");
    let e = assign_text(e, "font-size", "20");
    let e = assign_text(e, "dominant-baseline", "central");
    let e = assign_text(e, "text-anchor", "middle");
    assert(element_children(e) =~= seq![text@]);
    e
}

/// A ring round `(x, y)` of radius `r`, drawn in `stroke`.
pub fn circle(x: usize, y: usize, r: usize, stroke: &str) -> (e: Element)
    ensures
        element_name(e) == "circle"@,
        element_attributes(e) == circle_attributes(x, y, r, stroke@),
        element_children(e) == no_children(),
{
    let e = new_element("circle");
    let e = assign_text(e, "cx", decimal_string(x).as_str());
    let e = assign_text(e, "cy", decimal_string(y).as_str());
    let e = assign_text(e, "r", decimal_string(r).as_str());
    let e = assign_text(e, "stroke", stroke);
    let e = assign_text(e, "fill", "transparent");
    assign_text(e, "stroke-width", "3")
}

/// A stroke from `(x1, y1)` to `(x2, y2)`, drawn in `color`.
pub fn line(x1: usize, y1: usize, x2: usize, y2: usize, color: &str) -> (e: Element)
    ensures
        element_name(e) == "line"@,
        element_attributes(e) == line_attributes(x1, y1, x2, y2, color@),
        element_children(e) == no_children(),
{
    let e = new_element("line");
    let e = assign_text(e, "x1", decimal_string(x1).as_str());
    let e = assign_text(e, "y1", decimal_string(y1).as_str());
    let e = assign_text(e, "x2", decimal_string(x2).as_str());
    let e = assign_text(e, "y2", decimal_string(y2).as_str());
    let e = assign_text(e, "stroke", color);
    let e = assign_text(e, "stroke-width", "3");
    assign_text(e, "stroke-linecap", "round")
}

/// The text of the title that a group carries.
pub open spec fn title_text(title: Seq<char>) -> Seq<char> {
    element_text("title"@, no_attributes(), seq![title])
}

/// A group that carries `title`.
pub fn group(title: String) -> (e: Element)
    ensures
        element_name(e) == "g"@,
        element_attributes(e) == no_attributes(),
        element_children(e) == seq![title_text(title@)],
{
    let heading = new_element("title");
    let heading = append_text(heading, title.as_str());
    assert(element_children(heading) =~= seq![title@]);
    let e = new_element("g");
    let e = append_element(e, heading);
    assert(element_children(e) =~= seq![title_text(title@)]);
    e
}

} // verus!

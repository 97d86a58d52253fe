use vstd::prelude::*;
use crate::vdom::attribute::{attrs_view, Attribute, AttributeView};
use crate::vdom::node::{lemma_element_view, nodes_view, Element, ElementView, Node, NodeView, Text};
use crate::vdom::value::{
    styles_view, values_view, AttributeValue, AttributeValueView, Callback, Style, StyleView, Value,
    ValueView,
};

verus! {

/// The element node without a namespace that is made of the given parts.
pub open spec fn element_of(
    tag: Seq<char>,
    attrs: Seq<AttributeView>,
    children: Seq<NodeView>,
    self_closing: bool,
) -> NodeView {
    NodeView::Element(ElementView { namespace: None, tag, attrs, children, self_closing })
}

/// The attribute without a namespace that has the single value `value`.
pub open spec fn single(name: Seq<char>, value: AttributeValueView) -> AttributeView {
    AttributeView { namespace: None, name, values: seq![value] }
}

/// The attribute `name` with the text `value`.
pub open spec fn text_attr(name: Seq<char>, value: Seq<char>) -> AttributeView {
    single(name, AttributeValueView::Plain(ValueView::Str(value)))
}

/// An element with the given tag.
pub fn html_element(tag: &str, attrs: Vec<Attribute>, children: Vec<Node>) -> (r: Node)
    ensures
        r@ == element_of(tag@, attrs_view(attrs@), nodes_view(children@), false),
{
    let e = Element::new(None, tag, attrs, children, false);
    proof {
        lemma_element_view(e);
    }
    Node::Element(e)
}

/// An element with the given tag that takes no closing tag.
pub fn html_element_self_closing(tag: &str, attrs: Vec<Attribute>, children: Vec<Node>) -> (r: Node)
    ensures
        r@ == element_of(tag@, attrs_view(attrs@), nodes_view(children@), true),
{
    let e = Element::new(None, tag, attrs, children, true);
    proof {
        lemma_element_view(e);
    }
    Node::Element(e)
}

/// A text leaf.
pub fn text(s: &str) -> (r: Node)
    ensures
        r@ == NodeView::Text(s@),
{
    Node::Text(Text::new(s))
}

/// A `div` element.
pub fn div(attrs: Vec<Attribute>, children: Vec<Node>) -> (r: Node)
    ensures
        r@ == element_of("div"@, attrs_view(attrs@), nodes_view(children@), false),
{
    html_element("div", attrs, children)
}

/// A `span` element.
pub fn span(attrs: Vec<Attribute>, children: Vec<Node>) -> (r: Node)
    ensures
        r@ == element_of("span"@, attrs_view(attrs@), nodes_view(children@), false),
{
    html_element("span", attrs, children)
}

/// A `b` element.
pub fn b(attrs: Vec<Attribute>, children: Vec<Node>) -> (r: Node)
    ensures
        r@ == element_of("b"@, attrs_view(attrs@), nodes_view(children@), false),
{
    html_element("b", attrs, children)
}

/// An `i` element.
pub fn i(attrs: Vec<Attribute>, children: Vec<Node>) -> (r: Node)
    ensures
        r@ == element_of("i"@, attrs_view(attrs@), nodes_view(children@), false),
{
    html_element("i", attrs, children)
}

/// A `strong` element.
pub fn strong(attrs: Vec<Attribute>, children: Vec<Node>) -> (r: Node)
    ensures
        r@ == element_of("strong"@, attrs_view(attrs@), nodes_view(children@), false),
{
    html_element("strong", attrs, children)
}

/// A `main` element.
pub fn main(attrs: Vec<Attribute>, children: Vec<Node>) -> (r: Node)
    ensures
        r@ == element_of("main"@, attrs_view(attrs@), nodes_view(children@), false),
{
    html_element("main", attrs, children)
}

/// A `section` element.
pub fn section(attrs: Vec<Attribute>, children: Vec<Node>) -> (r: Node)
    ensures
        r@ == element_of("section"@, attrs_view(attrs@), nodes_view(children@), false),
{
    html_element("section", attrs, children)
}

/// An `article` element.
pub fn article(attrs: Vec<Attribute>, children: Vec<Node>) -> (r: Node)
    ensures
        r@ == element_of("article"@, attrs_view(attrs@), nodes_view(children@), false),
{
    html_element("article", attrs, children)
}

/// An `input` element, which takes no closing tag.
pub fn input(attrs: Vec<Attribute>, children: Vec<Node>) -> (r: Node)
    ensures
        r@ == element_of("input"@, attrs_view(attrs@), nodes_view(children@), true),
{
    html_element_self_closing("input", attrs, children)
}

/// The attribute `name` with the text `value`.
pub fn attr(name: &str, value: &str) -> (r: Attribute)
    ensures
        r@ == text_attr(name@, value@),
{
    Attribute::new(None, name, AttributeValue::from_value(Value::from_str(value)))
}

/// The attribute `id`.
pub fn id(v: &str) -> (r: Attribute)
    ensures
        r@ == text_attr("id"@, v@),
{
    attr("id", v)
}

/// The attribute `value`.
pub fn value(v: &str) -> (r: Attribute)
    ensures
        r@ == text_attr("value"@, v@),
{
    attr("value", v)
}

/// One declaration of the attribute `class`.
pub fn class(v: &str) -> (r: Attribute)
    ensures
        r@ == text_attr("class"@, v@),
{
    attr("class", v)
}

/// The text values of `names`, in order.
pub open spec fn text_values(names: Seq<&str>) -> Seq<AttributeValueView> {
    Seq::new(names.len(), |i: int| AttributeValueView::Plain(ValueView::Str(names[i]@)))
}

/// One `class` attribute that holds each of `names` as a value.
pub fn classes(names: &[&str]) -> (r: Attribute)
    ensures
        r@ == (AttributeView { namespace: None, name: "class"@, values: text_values(names@) }),
{
    let mut values: Vec<AttributeValue> = Vec::new();
    let mut k: usize = 0;
    while k < names.len()
        invariant
            k <= names.len(),
            values.len() == k,
            forall|j: int| 0 <= j < k ==> values@[j]@ == text_values(names@)[j],
        decreases names.len() - k,
    {
        values.push(AttributeValue::from_value(Value::from_str(names[k])));
        k += 1;
    }
    assert(values_view(values@) =~= text_values(names@));
    Attribute::with_multiple_values(None, "class", values)
}

/// The key `n`, which tells a child apart from its siblings.
pub fn key(n: i64) -> (r: Attribute)
    ensures
        r@ == single("key"@, AttributeValueView::Plain(ValueView::Int(n))),
{
    Attribute::new(None, "key", AttributeValue::from_value(Value::Int(n)))
}

/// The declarations `pairs` as style declarations, in order.
pub open spec fn style_list(pairs: Seq<(&str, &str)>) -> Seq<StyleView> {
    Seq::new(pairs.len(), |i: int| StyleView { name: pairs[i].0@, value: ValueView::Str(pairs[i].1@) })
}

/// A `style` attribute with the single declaration `name: value`.
pub fn style(name: &str, value: &str) -> (r: Attribute)
    ensures
        r@ == single(
            "style"@,
            AttributeValueView::Style(seq![StyleView { name: name@, value: ValueView::Str(value@) }]),
        ),
{
    let mut list: Vec<Style> = Vec::new();
    list.push(Style::new(name, value));
    assert(styles_view(list@) =~= seq![StyleView { name: name@, value: ValueView::Str(value@) }]);
    Attribute::new(None, "style", AttributeValue::Style(list))
}

/// A `style` attribute with the declarations `pairs` as one value.
pub fn styles(pairs: &[(&str, &str)]) -> (r: Attribute)
    ensures
        r@ == single("style"@, AttributeValueView::Style(style_list(pairs@))),
{
    let mut list: Vec<Style> = Vec::new();
    let mut k: usize = 0;
    while k < pairs.len()
        invariant
            k <= pairs.len(),
            list.len() == k,
            forall|j: int| 0 <= j < k ==> list@[j]@ == style_list(pairs@)[j],
        decreases pairs.len() - k,
    {
        list.push(Style::new(pairs[k].0, pairs[k].1));
        k += 1;
    }
    assert(styles_view(list@) =~= style_list(pairs@));
    Attribute::new(None, "style", AttributeValue::Style(list))
}

/// The declarations among `triples` whose flag is set, in order.
pub open spec fn flagged(triples: Seq<(&str, &str, bool)>) -> Seq<StyleView>
    decreases triples.len(),
{
    if triples.len() == 0 {
        Seq::empty()
    } else if triples.last().2 {
        flagged(triples.drop_last()).push(
            StyleView { name: triples.last().0@, value: ValueView::Str(triples.last().1@) },
        )
    } else {
        flagged(triples.drop_last())
    }
}

/// A `style` attribute with those declarations of `triples` whose flag is set.
pub fn styles_flag(triples: &[(&str, &str, bool)]) -> (r: Attribute)
    ensures
        r@ == single("style"@, AttributeValueView::Style(flagged(triples@))),
{
    let mut list: Vec<Style> = Vec::new();
    let mut k: usize = 0;
    assert(triples@.take(0) =~= Seq::empty());
    assert(styles_view(list@) =~= Seq::empty());
    while k < triples.len()
        invariant
            k <= triples.len(),
            styles_view(list@) == flagged(triples@.take(k as int)),
        decreases triples.len() - k,
    {
        let ghost before = styles_view(list@);
        if triples[k].2 {
            list.push(Style::new(triples[k].0, triples[k].1));
            assert(styles_view(list@) =~= before.push(
                StyleView { name: triples@[k as int].0@, value: ValueView::Str(triples@[k as int].1@) },
            ));
        }
        assert(triples@.take(k as int + 1).drop_last() =~= triples@.take(k as int));
        assert(triples@.take(k as int + 1).last() == triples@[k as int]);
        k += 1;
    }
    assert(triples@.take(k as int) =~= triples@);
    Attribute::new(None, "style", AttributeValue::Style(list))
}

/// A listener for the event `event`.
pub fn on(event: &str, callback: Callback) -> (r: Attribute)
    ensures
        r@ == single(event@, AttributeValueView::EventListener(callback.id)),
{
    Attribute::new(None, event, AttributeValue::EventListener(callback))
}

/// A listener for the event `click`.
pub fn on_click(callback: Callback) -> (r: Attribute)
    ensures
        r@ == single("click"@, AttributeValueView::EventListener(callback.id)),
{
    on("click", callback)
}

/// A listener for the event `input`.
pub fn on_input(callback: Callback) -> (r: Attribute)
    ensures
        r@ == single("input"@, AttributeValueView::EventListener(callback.id)),
{
    on("input", callback)
}

} // verus!

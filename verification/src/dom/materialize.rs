use vstd::prelude::*;
use crate::dom::live::{
    lemma_live_element_view, listeners_view, lives_view, Listener, ListenerView, LiveElement,
    LiveNode, LiveText,
};
use crate::dom::model::{
    attached, count, count_first, listeners_in, materialized, materialized_all, set_all, set_attr,
};
use crate::vdom::attribute::{attrs_view, find_name, merge_attributes, Attribute, AttributeView};
use crate::vdom::node::{lemma_element_view, nodes_view, Element, Node, NodeView};
use crate::vdom::value::AttributeValue;

verus! {

/// The first trees of a list never have more nodes than more of them.
pub proof fn lemma_count_first_monotone(c: Seq<NodeView>, i: int, j: int)
    requires
        0 <= i <= j <= c.len(),
    ensures
        count_first(c, i) <= count_first(c, j),
    decreases j - i,
{
    if i < j {
        lemma_count_first_monotone(c, i, j - 1);
    }
}

/// Sets each attribute of `attrs` that binds no listener on `cur`, in order.
pub fn set_attributes(cur: &mut Vec<Attribute>, attrs: &Vec<Attribute>)
    ensures
        attrs_view(final(cur)@) == set_all(attrs_view(old(cur)@), attrs_view(attrs@)),
{
    let ghost src = attrs_view(attrs@);
    let mut i: usize = 0;
    assert(src.take(0) =~= Seq::<AttributeView>::empty());
    while i < attrs.len()
        invariant
            i <= attrs.len(),
            src == attrs_view(attrs@),
            attrs_view(cur@) == set_all(attrs_view(old(cur)@), src.take(i as int)),
        decreases attrs.len() - i,
    {
        let a = &attrs[i];
        let ghost before = attrs_view(cur@);
        if !a.is_event() {
            match find_name(cur, &a.name) {
                Some(j) => {
                    cur.set(j, a.clone());
                    assert(attrs_view(cur@) =~= before.update(j as int, a@));
                },
                None => {
                    cur.push(a.clone());
                    assert(attrs_view(cur@) =~= before.push(a@));
                },
            }
            assert(attrs_view(cur@) == set_attr(before, a@));
        }
        assert(src.take(i as int + 1).drop_last() =~= src.take(i as int));
        assert(src.take(i as int + 1).last() == a@);
        i += 1;
    }
    assert(src.take(i as int) =~= src);
}

/// Adds the listeners that the attribute `a` binds behind those of `out`.
fn collect_from(out: &mut Vec<Listener>, a: &Attribute)
    ensures
        listeners_view(final(out)@) == listeners_view(old(out)@) + listeners_in(a@.name, a@.values),
{
    let ghost vals = a@.values;
    let mut k: usize = 0;
    assert(vals.take(0) =~= Seq::empty());
    assert(listeners_view(out@) =~= listeners_view(old(out)@) + listeners_in(a@.name, vals.take(0)));
    while k < a.value.len()
        invariant
            k <= a.value.len(),
            vals == a@.values,
            listeners_view(out@) == listeners_view(old(out)@) + listeners_in(
                a@.name,
                vals.take(k as int),
            ),
        decreases a.value.len() - k,
    {
        let ghost before = listeners_view(out@);
        assert(vals.take(k as int + 1).drop_last() =~= vals.take(k as int));
        assert(vals.take(k as int + 1).last() == vals[k as int]);
        match &a.value[k] {
            AttributeValue::EventListener(cb) => {
                out.push(Listener { event: a.name.clone(), callback: *cb });
                assert(listeners_view(out@) =~= before.push(
                    ListenerView { event: a@.name, callback: cb.id },
                ));
                assert(listeners_view(out@) =~= listeners_view(old(out)@) + listeners_in(
                    a@.name,
                    vals.take(k as int + 1),
                ));
            },
            _ => {},
        }
        k += 1;
    }
    assert(vals.take(k as int) =~= vals);
}

/// The listeners that the attributes `attrs` bind, in order.
pub fn collect_listeners(attrs: &Vec<Attribute>) -> (r: Vec<Listener>)
    ensures
        listeners_view(r@) == attached(attrs_view(attrs@)),
{
    let ghost src = attrs_view(attrs@);
    let mut out: Vec<Listener> = Vec::new();
    let mut i: usize = 0;
    assert(src.take(0) =~= Seq::<AttributeView>::empty());
    assert(listeners_view(out@) =~= Seq::<ListenerView>::empty());
    while i < attrs.len()
        invariant
            i <= attrs.len(),
            src == attrs_view(attrs@),
            listeners_view(out@) == attached(src.take(i as int)),
        decreases attrs.len() - i,
    {
        collect_from(&mut out, &attrs[i]);
        assert(src.take(i as int + 1).drop_last() =~= src.take(i as int));
        assert(src.take(i as int + 1).last() == attrs@[i as int]@);
        i += 1;
    }
    assert(src.take(i as int) =~= src);
    out
}

/// The live tree that stands for the virtual tree `n`, with identities from
/// `next` on, and the next identity after it; nothing where the identities do
/// not suffice.
pub fn materialize(n: &Node, next: u64) -> (r: Option<(LiveNode, u64)>)
    ensures
        match r {
            Some((live, after)) => next + count(n@) <= u64::MAX && live@ == materialized(
                n@,
                next as int,
            ) && after == next + count(n@),
            None => next + count(n@) > u64::MAX,
        },
    decreases n,
{
    if next == u64::MAX {
        return None;
    }
    match n {
        Node::Text(t) => Some((LiveNode::Text(LiveText { id: next, text: t.text.clone() }), next + 1)),
        Node::Element(e) => {
            proof {
                lemma_element_view(*e);
            }
            materialize_element(e, next)
        },
    }
}

/// The live tree that stands for the element `e`.
pub fn materialize_element(e: &Element, next: u64) -> (r: Option<(LiveNode, u64)>)
    requires
        next < u64::MAX,
    ensures
        match r {
            Some((live, after)) => next + count(NodeView::Element(e@)) <= u64::MAX && live@
                == materialized(NodeView::Element(e@), next as int) && after == next + count(
                NodeView::Element(e@),
            ),
            None => next + count(NodeView::Element(e@)) > u64::MAX,
        },
    decreases e, 1nat,
{
    match materialize_all(&e.children, next + 1) {
        None => None,
        Some((children, after)) => {
            let folded = merge_attributes(&e.attrs);
            let mut attrs: Vec<Attribute> = Vec::new();
            assert(attrs_view(attrs@) =~= Seq::<AttributeView>::empty());
            set_attributes(&mut attrs, &folded);
            let listeners = collect_listeners(&folded);
            let ns: Option<String> = match &e.namespace {
                Some(s) => Some(s.clone()),
                None => None,
            };
            let live = LiveElement {
                id: next,
                namespace: ns,
                tag: e.tag.clone(),
                attrs,
                listeners,
                children,
            };
            proof {
                lemma_live_element_view(live);
                assert(live@.children =~= materialized(
                    NodeView::Element(e@),
                    next as int,
                )->Element_0.children);
            }
            Some((LiveNode::Element(live), after))
        },
    }
}

/// The live trees that stand for the virtual trees `c`, with identities from
/// `next` on, and the next identity after them; nothing where the identities
/// do not suffice.
pub fn materialize_all(c: &Vec<Node>, next: u64) -> (r: Option<(Vec<LiveNode>, u64)>)
    ensures
        match r {
            Some((lives, after)) => next + count_first(nodes_view(c@), c.len() as int) <= u64::MAX
                && lives_view(lives@) == materialized_all(nodes_view(c@), next as int) && after
                == next + count_first(nodes_view(c@), c.len() as int),
            None => next + count_first(nodes_view(c@), c.len() as int) > u64::MAX,
        },
    decreases c, 0nat,
{
    let ghost v = nodes_view(c@);
    let mut out: Vec<LiveNode> = Vec::new();
    let mut cur = next;
    let mut i: usize = 0;
    while i < c.len()
        invariant
            i <= c.len(),
            v == nodes_view(c@),
            out.len() == i,
            cur == next + count_first(v, i as int),
            forall|k: int|
                0 <= k < i ==> out@[k]@ == materialized(v[k], next + count_first(v, k)),
        decreases c.len() - i,
    {
        match materialize(&c[i], cur) {
            None => {
                proof {
                    lemma_count_first_monotone(v, i as int + 1, c.len() as int);
                }
                return None;
            },
            Some((live, after)) => {
                out.push(live);
                cur = after;
            },
        }
        i += 1;
    }
    assert(lives_view(out@) =~= materialized_all(v, next as int));
    Some((out, cur))
}

} // verus!

use vstd::prelude::*;
use crate::diff::model::listener_names;
use crate::dom::live::LiveNodeView;
use crate::dom::materialize::lemma_count_first_monotone;
use crate::dom::model::{contains_id, count, count_first, materialized, materialized_all};
use crate::proofs::attributes::{
    events_of, lemma_attached_events, lemma_last_plain_distinct, lemma_merged_listeners,
    lemma_value_set_all, plain_value, value_of,
};
use crate::proofs::identity::{lemma_contains_element, lemma_forest_unique_all, unique};
use crate::vdom::attribute::{lemma_merged_distinct, lemma_name_index, merged, AttributeView};
use crate::vdom::node::NodeView;

verus! {

/// Whether the live tree `live` shows what the virtual tree `v` describes: the
/// same text in each leaf; in each element the same tag, the same values set
/// under each plain attribute, listeners for the same events, and children
/// that show the children of `v`, one for one. The identities of the live
/// nodes do not matter, nor do namespaces.
pub open spec fn agrees(live: LiveNodeView, v: NodeView) -> bool
    decreases v, 0nat,
{
    match (live, v) {
        (LiveNodeView::Text { id, text }, NodeView::Text(t)) => text == t,
        (LiveNodeView::Element(l), NodeView::Element(e)) => {
            &&& l.tag == e.tag
            &&& forall|x: Seq<char>| value_of(l.attrs, x) == #[trigger] plain_value(merged(e.attrs), x)
            &&& forall|x: Seq<char>|
                events_of(l.listeners).contains(x) == #[trigger] listener_names(e.attrs).contains(x)
            &&& l.children.len() == e.children.len()
            &&& forest_agrees(l.children, e.children, e.children.len() as int)
        },
        _ => false,
    }
}

/// Whether each of the first `k` live trees shows the virtual tree at its position.
pub open spec fn forest_agrees(lc: Seq<LiveNodeView>, vc: Seq<NodeView>, k: int) -> bool
    decreases vc, k,
{
    k <= 0 || (k <= vc.len() && k <= lc.len() && forest_agrees(lc, vc, k - 1) && agrees(
        lc[k - 1],
        vc[k - 1],
    ))
}

/// Each of the first `k` trees of lists that agree shows the tree at its position.
pub proof fn lemma_forest_agrees_at(lc: Seq<LiveNodeView>, vc: Seq<NodeView>, k: int, i: int)
    requires
        forest_agrees(lc, vc, k),
        0 <= i < k,
    ensures
        i < lc.len(),
        i < vc.len(),
        agrees(lc[i], vc[i]),
    decreases k,
{
    if i < k - 1 {
        lemma_forest_agrees_at(lc, vc, k - 1, i);
    }
}

/// Lists of which each tree shows the tree at its position agree.
pub proof fn lemma_forest_agrees_all(lc: Seq<LiveNodeView>, vc: Seq<NodeView>, k: int)
    requires
        0 <= k <= lc.len(),
        k <= vc.len(),
        forall|i: int| 0 <= i < k ==> agrees(#[trigger] lc[i], vc[i]),
    ensures
        forest_agrees(lc, vc, k),
    decreases k,
{
    if k > 0 {
        lemma_forest_agrees_all(lc, vc, k - 1);
    }
}

/// A freshly materialized tree shows the virtual tree that it was made from.
pub proof fn lemma_materialized_agrees(v: NodeView, next: int)
    ensures
        agrees(materialized(v, next), v),
    decreases v,
{
    match v {
        NodeView::Text(_) => {},
        NodeView::Element(e) => {
            let live = materialized(v, next)->Element_0;
            let m = merged(e.attrs);
            lemma_merged_distinct(e.attrs);
            assert forall|x: Seq<char>| value_of(live.attrs, x) == #[trigger] plain_value(m, x) by {
                lemma_value_set_all(Seq::empty(), m, x);
                lemma_last_plain_distinct(m, x);
                lemma_name_index(Seq::<AttributeView>::empty(), x, 0);
            }
            assert forall|x: Seq<char>|
                events_of(live.listeners).contains(x) == #[trigger] listener_names(e.attrs).contains(
                    x,
                ) by {
                lemma_attached_events(m, x);
                lemma_merged_listeners(e.attrs, x);
            }
            assert forall|i: int| 0 <= i < e.children.len() implies agrees(
                #[trigger] live.children[i],
                e.children[i],
            ) by {
                lemma_materialized_agrees(e.children[i], next + 1 + count_first(e.children, i));
            }
            lemma_forest_agrees_all(live.children, e.children, e.children.len() as int);
        },
    }
}

/// The identities of a freshly materialized tree are the next ones, one for each node.
pub proof fn lemma_materialized_ids(v: NodeView, next: int, id: u64)
    requires
        0 <= next,
        next + count(v) <= u64::MAX,
        contains_id(materialized(v, next), id),
    ensures
        next <= id < next + count(v),
    decreases v,
{
    match v {
        NodeView::Text(_) => {},
        NodeView::Element(e) => {
            let live = materialized(v, next)->Element_0;
            lemma_contains_element(live, id);
            if live.id != id {
                let i = choose|i: int|
                    0 <= i < live.children.len() && contains_id(#[trigger] live.children[i], id);
                lemma_count_first_monotone(e.children, i + 1, e.children.len() as int);
                lemma_count_first_monotone(e.children, 0, i);
                lemma_materialized_ids(e.children[i], next + 1 + count_first(e.children, i), id);
            }
        },
    }
}

/// No two nodes of a freshly materialized tree have the same identity.
pub proof fn lemma_materialized_unique(v: NodeView, next: int)
    requires
        0 <= next,
        next + count(v) <= u64::MAX,
    ensures
        unique(materialized(v, next)),
    decreases v,
{
    match v {
        NodeView::Text(_) => {},
        NodeView::Element(e) => {
            let live = materialized(v, next)->Element_0;
            let c = e.children;
            assert forall|i: int| 0 <= i < c.len() implies next + 1 + count_first(c, i) + count(c[i])
                <= next + count(v) && 0 <= count_first(c, i) by {
                lemma_count_first_monotone(c, i + 1, c.len() as int);
            }
            assert forall|i: int| 0 <= i < live.children.len() implies !contains_id(
                #[trigger] live.children[i],
                live.id,
            ) by {
                if contains_id(live.children[i], live.id) {
                    lemma_materialized_ids(c[i], next + 1 + count_first(c, i), live.id);
                }
            }
            assert forall|i: int, k: int, id: u64|
                0 <= i < k < live.children.len() && #[trigger] contains_id(
                    live.children[i],
                    id,
                ) implies !#[trigger] contains_id(live.children[k], id) by {
                lemma_materialized_ids(c[i], next + 1 + count_first(c, i), id);
                if contains_id(live.children[k], id) {
                    lemma_materialized_ids(c[k], next + 1 + count_first(c, k), id);
                    lemma_count_first_monotone(c, i + 1, k);
                }
            }
            assert forall|i: int| 0 <= i < live.children.len() implies unique(
                #[trigger] live.children[i],
            ) by {
                lemma_materialized_unique(c[i], next + 1 + count_first(c, i));
            }
            lemma_forest_unique_all(live.children, live.children.len() as int);
        },
    }
}

/// The identities of freshly materialized trees are the next ones, one for each node.
pub proof fn lemma_materialized_all_ids(c: Seq<NodeView>, next: int, i: int, id: u64)
    requires
        0 <= next,
        next + count_first(c, c.len() as int) <= u64::MAX,
        0 <= i < c.len(),
        contains_id(materialized_all(c, next)[i], id),
    ensures
        next <= id < next + count_first(c, c.len() as int),
{
    lemma_count_first_monotone(c, i + 1, c.len() as int);
    lemma_count_first_monotone(c, 0, i);
    lemma_materialized_ids(c[i], next + count_first(c, i), id);
}

} // verus!

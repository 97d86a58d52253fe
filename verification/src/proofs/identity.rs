use vstd::prelude::*;
use crate::dom::live::{children_of, LiveElementView, LiveNodeView};
use crate::dom::model::{contains_id, descend, holder};
use crate::proofs::balance::lemma_find_holder;

verus! {

/// Whether the first `k` trees of `c` each hold no identity twice.
pub open spec fn forest_unique(c: Seq<LiveNodeView>, k: int) -> bool
    decreases c, k,
{
    k <= 0 || k > c.len() || (forest_unique(c, k - 1) && unique(c[k - 1]))
}

/// Whether no two nodes of the tree `n` have the same identity.
pub open spec fn unique(n: LiveNodeView) -> bool
    decreases n, 0nat,
{
    match n {
        LiveNodeView::Text { .. } => true,
        LiveNodeView::Element(e) => {
            &&& forall|i: int|
                0 <= i < e.children.len() ==> !contains_id(#[trigger] e.children[i], e.id)
            &&& forall|i: int, k: int, id: u64|
                0 <= i < k < e.children.len() && #[trigger] contains_id(e.children[i], id)
                    ==> !#[trigger] contains_id(e.children[k], id)
            &&& forest_unique(e.children, e.children.len() as int)
        },
    }
}

/// Whether every identity in the tree `n` is below `bound`.
pub open spec fn below(n: LiveNodeView, bound: int) -> bool {
    forall|id: u64| #[trigger] contains_id(n, id) ==> id < bound
}

/// Each of the first `k` trees of a list without double identities has none.
pub proof fn lemma_forest_unique(c: Seq<LiveNodeView>, k: int, i: int)
    requires
        forest_unique(c, k),
        0 <= i < k <= c.len(),
    ensures
        unique(c[i]),
    decreases k,
{
    if i < k - 1 {
        lemma_forest_unique(c, k - 1, i);
    }
}

/// Trees that each have no double identity make a list without double identities.
pub proof fn lemma_forest_unique_all(c: Seq<LiveNodeView>, k: int)
    requires
        0 <= k <= c.len(),
        forall|i: int| 0 <= i < k ==> unique(#[trigger] c[i]),
    ensures
        forest_unique(c, k),
    decreases k,
{
    if k > 0 {
        lemma_forest_unique_all(c, k - 1);
    }
}

/// The first tree that holds `id` is the one before which none holds it.
pub proof fn lemma_holder_is(c: Seq<LiveNodeView>, id: u64, from: int, j: int)
    requires
        0 <= from <= j < c.len(),
        contains_id(c[j], id),
        forall|i: int| from <= i < j ==> !contains_id(#[trigger] c[i], id),
    ensures
        holder(c, id, from) == j,
    decreases j - from,
{
    if from < j {
        lemma_holder_is(c, id, from + 1, j);
    }
}

/// No tree holds `id` where `holder` finds none.
pub proof fn lemma_holder_none(c: Seq<LiveNodeView>, id: u64, from: int)
    requires
        0 <= from,
        holder(c, id, from) < 0,
    ensures
        forall|i: int| from <= i < c.len() ==> !contains_id(#[trigger] c[i], id),
    decreases c.len() - from,
{
    if from < c.len() {
        lemma_holder_none(c, id, from + 1);
    }
}

/// An element holds an identity exactly where it has it itself or one of its
/// children holds it.
pub proof fn lemma_contains_element(e: LiveElementView, id: u64)
    ensures
        contains_id(LiveNodeView::Element(e), id) <==> (e.id == id || exists|i: int|
            0 <= i < e.children.len() && contains_id(#[trigger] e.children[i], id)),
{
    lemma_find_holder(e.children, id, 0);
    let j = holder(e.children, id, 0);
    if e.id != id {
        if j >= 0 {
            assert(contains_id(e.children[j], id));
        } else {
            lemma_holder_none(e.children, id, 0);
        }
    }
}

/// What a child holds, its element holds.
pub proof fn lemma_contains_child(e: LiveElementView, i: int, id: u64)
    requires
        0 <= i < e.children.len(),
        contains_id(e.children[i], id),
    ensures
        contains_id(LiveNodeView::Element(e), id),
{
    lemma_contains_element(e, id);
}

/// The node that a path leads to is in the tree.
pub proof fn lemma_descend_contains(n: LiveNodeView, p: Seq<usize>)
    requires
        descend(n, p).is_some(),
    ensures
        contains_id(n, descend(n, p).unwrap()),
    decreases p.len(),
{
    if p.len() > 0 {
        let c = children_of(n)[p[0] as int];
        lemma_descend_contains(c, p.skip(1));
        match n {
            LiveNodeView::Element(e) => {
                lemma_contains_child(e, p[0] as int, descend(n, p).unwrap());
            },
            LiveNodeView::Text { .. } => {},
        }
    }
}

} // verus!

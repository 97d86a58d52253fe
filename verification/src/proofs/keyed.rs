use vstd::prelude::*;
use crate::diff::model::{key_index, key_of, keys_of, leaves, lemma_key_index, partner};
use crate::dom::live::LiveNodeView;
use crate::vdom::node::NodeView;

verus! {

/// Whether comparing the children `old` and `new` by key leaves the old
/// children that stay in the order of the new ones: every old child has a
/// key, no two old children have the same key, every new child has a partner
/// among the old ones, and the partners stand in the order of the new children.
pub open spec fn keyed_in_order(old: Seq<NodeView>, new: Seq<NodeView>) -> bool {
    &&& forall|i: int| 0 <= i < old.len() ==> (#[trigger] keys_of(old)[i]).is_some()
    &&& forall|i: int, k: int|
        0 <= i < k < old.len() ==> (#[trigger] keys_of(old)[i]) != (#[trigger] keys_of(old)[k])
    &&& forall|j: int| 0 <= j < new.len() ==> 0 <= #[trigger] partner(old, new, j)
    &&& forall|j: int, k: int|
        0 <= j < k < new.len() ==> (#[trigger] partner(old, new, j)) < (#[trigger] partner(
            old,
            new,
            k,
        ))
}

/// A partner is an old child with the key of the new child.
pub proof fn lemma_partner(old: Seq<NodeView>, new: Seq<NodeView>, j: int)
    requires
        0 <= j < new.len(),
        0 <= partner(old, new, j),
    ensures
        partner(old, new, j) < old.len(),
        key_of(new[j]).is_some(),
        key_of(old[partner(old, new, j)]) == key_of(new[j]),
        !leaves(old, new, partner(old, new, j)),
{
    let k = key_of(new[j]).unwrap();
    lemma_key_index(keys_of(old), k, 0);
    lemma_key_index(keys_of(new), k, 0);
    let i = partner(old, new, j);
    assert(keys_of(old)[i] == Some(k));
    assert(keys_of(new)[j] == Some(k));
}

/// An old child that leaves is the partner of no new child.
pub proof fn lemma_leaving_has_no_partner(old: Seq<NodeView>, new: Seq<NodeView>, i: int, j: int)
    requires
        0 <= i < old.len(),
        0 <= j < new.len(),
        leaves(old, new, i),
    ensures
        partner(old, new, j) != i,
{
    if partner(old, new, j) == i {
        lemma_partner(old, new, j);
    }
}

/// An old child that stays is the partner of a new child, where the old
/// children all have keys and no two the same.
pub proof fn lemma_staying_has_partner(old: Seq<NodeView>, new: Seq<NodeView>, i: int) -> (j: int)
    requires
        keyed_in_order(old, new),
        0 <= i < old.len(),
        !leaves(old, new, i),
    ensures
        0 <= j < new.len(),
        partner(old, new, j) == i,
{
    assert(keys_of(old)[i].is_some());
    let k = key_of(old[i]).unwrap();
    lemma_key_index(keys_of(new), k, 0);
    let j = key_index(keys_of(new), k, 0);
    assert(keys_of(new)[j] == Some(k));
    lemma_key_index(keys_of(old), k, 0);
    let w = partner(old, new, j);
    assert(keys_of(old)[w] == Some(k));
    assert(keys_of(old)[i] == Some(k));
    if w < i {
        assert(keys_of(old)[w] != keys_of(old)[i]);
    }
    if i < w {
        assert(keys_of(old)[i] != keys_of(old)[w]);
    }
    j
}

/// Those of the first `i` trees of `f` whose old child stays, in order.
pub open spec fn kept(f: Seq<LiveNodeView>, old: Seq<NodeView>, new: Seq<NodeView>, i: int) -> Seq<
    LiveNodeView,
>
    decreases i,
{
    if i <= 0 {
        Seq::empty()
    } else if leaves(old, new, i - 1) {
        kept(f, old, new, i - 1)
    } else {
        kept(f, old, new, i - 1).push(f[i - 1])
    }
}

/// Each tree that is kept is one of the trees it was taken from.
pub proof fn lemma_kept_from(
    f: Seq<LiveNodeView>,
    old: Seq<NodeView>,
    new: Seq<NodeView>,
    i: int,
    x: int,
) -> (k: int)
    requires
        0 <= i <= f.len(),
        0 <= x < kept(f, old, new, i).len(),
    ensures
        0 <= k < i,
        kept(f, old, new, i)[x] == f[k],
    decreases i,
{
    if leaves(old, new, i - 1) {
        lemma_kept_from(f, old, new, i - 1, x)
    } else if x < kept(f, old, new, i - 1).len() {
        lemma_kept_from(f, old, new, i - 1, x)
    } else {
        i - 1
    }
}

/// The trees that are kept among the first `i` are those at the partners of
/// the first new children, in the order of the new children.
pub proof fn lemma_kept_partners(f: Seq<LiveNodeView>, old: Seq<NodeView>, new: Seq<NodeView>, i: int)
    requires
        keyed_in_order(old, new),
        0 <= i <= old.len(),
        f.len() == old.len(),
    ensures
        kept(f, old, new, i).len() <= new.len(),
        forall|j: int|
            0 <= j < kept(f, old, new, i).len() ==> (#[trigger] partner(old, new, j)) < i && kept(
                f,
                old,
                new,
                i,
            )[j] == f[partner(old, new, j)],
        forall|j: int| kept(f, old, new, i).len() <= j < new.len() ==> (#[trigger] partner(old, new, j)) >= i,
    decreases i,
{
    if i > 0 {
        lemma_kept_partners(f, old, new, i - 1);
        let before = kept(f, old, new, i - 1);
        let b = before.len() as int;
        if leaves(old, new, i - 1) {
            assert forall|j: int| b <= j < new.len() implies (#[trigger] partner(old, new, j)) >= i by {
                lemma_leaving_has_no_partner(old, new, i - 1, j);
            }
        } else {
            let j0 = lemma_staying_has_partner(old, new, i - 1);
            if j0 < b {
                assert(partner(old, new, j0) < i - 1);
            }
            if j0 > b {
                assert(partner(old, new, b) < partner(old, new, j0));
                assert(partner(old, new, b) >= i - 1);
            }
            assert(j0 == b);
            let now = kept(f, old, new, i);
            assert forall|j: int| 0 <= j < now.len() implies (#[trigger] partner(old, new, j)) < i
                && now[j] == f[partner(old, new, j)] by {
                if j < b {
                    assert(now[j] == before[j]);
                }
            }
            assert forall|j: int| now.len() <= j < new.len() implies (#[trigger] partner(old, new, j))
                >= i by {
                assert(partner(old, new, b) < partner(old, new, j));
            }
        }
    }
}

/// The trees that are kept are as many as the new children, and each stands at
/// the partner of the new child at its position.
pub proof fn lemma_kept_all(f: Seq<LiveNodeView>, old: Seq<NodeView>, new: Seq<NodeView>)
    requires
        keyed_in_order(old, new),
        f.len() == old.len(),
    ensures
        kept(f, old, new, old.len() as int).len() == new.len(),
        forall|j: int|
            0 <= j < new.len() ==> kept(f, old, new, old.len() as int)[j] == f[#[trigger] partner(
                old,
                new,
                j,
            )],
{
    lemma_kept_partners(f, old, new, old.len() as int);
    let b = kept(f, old, new, old.len() as int).len() as int;
    if b < new.len() {
        lemma_partner(old, new, b);
        assert(partner(old, new, b) >= old.len());
    }
}

} // verus!

use vstd::prelude::*;
use crate::diff::model::{
    any_keyed, attribute_patches, changed_attrs, diff_children, diff_node, diff_trees,
    dropped_attrs, is_changed, key_of, keyed_matches, keyed_removals, keys_of, leaves,
    lemma_key_index, listener_names, must_replace, partner, positional_pairs, removal,
    trailing_removals,
};
use crate::vdom::attribute::{
    distinct_names, lemma_distinct_index, lemma_merged_distinct, lemma_name_index, merged,
    AttributeView,
};
use crate::vdom::node::{ElementView, NodeView};
use crate::vdom::patch::{PatchKindView, PatchView};

verus! {

/// Among attributes with distinct names, none of the first `k` has to be set to
/// get from the list to itself.
proof fn lemma_nothing_changed(m: Seq<AttributeView>, k: int)
    requires
        distinct_names(m),
        0 <= k <= m.len(),
    ensures
        changed_attrs(m, m.take(k)) == Seq::<AttributeView>::empty(),
    decreases k,
{
    if k > 0 {
        lemma_nothing_changed(m, k - 1);
        assert(m.take(k).drop_last() =~= m.take(k - 1));
        assert(m.take(k).last() == m[k - 1]);
        lemma_distinct_index(m, k - 1);
        assert(!is_changed(m, m[k - 1]));
    } else {
        assert(m.take(0).len() == 0);
    }
}

/// None of the first `k` attributes of a list has a name that the list lacks.
proof fn lemma_nothing_dropped(m: Seq<AttributeView>, k: int)
    requires
        0 <= k <= m.len(),
    ensures
        dropped_attrs(m.take(k), m) == Seq::<AttributeView>::empty(),
    decreases k,
{
    if k > 0 {
        lemma_nothing_dropped(m, k - 1);
        assert(m.take(k).drop_last() =~= m.take(k - 1));
        assert(m.take(k).last() == m[k - 1]);
        lemma_name_index(m, m[k - 1].name, 0);
    } else {
        assert(m.take(0).len() == 0);
    }
}

/// An element needs no attribute patch to become itself.
pub proof fn lemma_same_attributes(e: ElementView, path: Seq<usize>)
    ensures
        attribute_patches(e, e, path) == Seq::<PatchView>::empty(),
{
    let m = merged(e.attrs);
    lemma_merged_distinct(e.attrs);
    lemma_nothing_changed(m, m.len() as int);
    lemma_nothing_dropped(m, m.len() as int);
    assert(m.take(m.len() as int) =~= m);
    assert(attribute_patches(e, e, path) =~= Seq::<PatchView>::empty());
}

/// Comparing a tree with itself yields no patch, wherever the tree stands.
pub proof fn lemma_diff_same(t: NodeView, path: Seq<usize>)
    ensures
        diff_node(t, t, path) == Seq::<PatchView>::empty(),
    decreases t, 0nat,
{
    match t {
        NodeView::Text(_) => {},
        NodeView::Element(e) => {
            lemma_same_attributes(e, path);
            lemma_same_children(e.tag, e.children, path);
            assert(diff_node(t, t, path) =~= Seq::<PatchView>::empty());
        },
    }
}

/// Comparing a list of children with itself yields no patch.
proof fn lemma_same_children(tag: Seq<char>, c: Seq<NodeView>, path: Seq<usize>)
    ensures
        diff_children(tag, c, c, path) == Seq::<PatchView>::empty(),
    decreases c, c.len() + 2,
{
    if any_keyed(c) {
        lemma_same_keyed(c, path, 0);
        lemma_none_leaves(c, path, 0);
        assert(diff_children(tag, c, c, path) =~= Seq::<PatchView>::empty());
    } else {
        lemma_same_pairs(c, path, 0);
        assert(trailing_removals(c, path, c.len() as int) =~= Seq::<PatchView>::empty());
        assert(diff_children(tag, c, c, path) =~= Seq::<PatchView>::empty());
    }
}

/// The new children of a list, compared with themselves as their own
/// partners, yield no patch.
proof fn lemma_same_keyed(c: Seq<NodeView>, path: Seq<usize>, j: int)
    requires
        0 <= j,
    ensures
        keyed_matches(c, c, path, j) == Seq::<PatchView>::empty(),
    decreases c, c.len() - j,
{
    if j < c.len() {
        lemma_same_keyed(c, path, j + 1);
        let i = partner(c, c, j);
        if 0 <= i < c.len() {
            assert(i == j);
            lemma_diff_same(c[j], path.push(j as usize));
        }
        assert(keyed_matches(c, c, path, j) =~= Seq::<PatchView>::empty());
    }
}

/// No child of a list leaves when the list is compared with itself.
proof fn lemma_none_leaves(c: Seq<NodeView>, path: Seq<usize>, i: int)
    requires
        0 <= i,
    ensures
        keyed_removals(c, c, path, i) == Seq::<PatchView>::empty(),
    decreases c.len() - i,
{
    if i < c.len() {
        lemma_none_leaves(c, path, i + 1);
        match key_of(c[i]) {
            Some(k) => {
                lemma_key_index(keys_of(c), k, 0);
                assert(keys_of(c)[i] == Some(k));
            },
            None => {},
        }
        assert(!leaves(c, c, i));
    }
}

/// The children of a list, compared with themselves by position, yield no patch.
proof fn lemma_same_pairs(c: Seq<NodeView>, path: Seq<usize>, i: int)
    requires
        0 <= i,
    ensures
        positional_pairs(c, c, path, i) == Seq::<PatchView>::empty(),
    decreases c, c.len() - i,
{
    if i < c.len() {
        lemma_same_pairs(c, path, i + 1);
        lemma_diff_same(c[i], path.push(i as usize));
        assert(positional_pairs(c, c, path, i) =~= Seq::<PatchView>::empty());
    }
}

/// Comparing a tree with itself yields no patch.
pub proof fn lemma_diff_trees_same(t: NodeView)
    ensures
        diff_trees(t, t) == Seq::<PatchView>::empty(),
{
    lemma_diff_same(t, seq![0usize]);
}

/// Two elements of which one listens to an event that the other does not listen
/// to are never patched attribute by attribute: the comparison yields exactly
/// one patch, which replaces the old element by the new one.
pub proof fn lemma_listener_change_replaces(
    old: ElementView,
    new: ElementView,
    path: Seq<usize>,
    event: Seq<char>,
)
    requires
        listener_names(old.attrs).contains(event) != listener_names(new.attrs).contains(event),
    ensures
        diff_node(NodeView::Element(old), NodeView::Element(new), path) == seq![
            PatchView {
                tag: Some(old.tag),
                path,
                kind: PatchKindView::ReplaceNode(NodeView::Element(new)),
            },
        ],
{
    assert(must_replace(NodeView::Element(old), NodeView::Element(new)));
}

/// Two nodes of different kinds or tags yield exactly one patch, which replaces
/// the old node by the new one.
pub proof fn lemma_kind_change_replaces(old: NodeView, new: NodeView, path: Seq<usize>)
    requires
        crate::diff::model::tag_of(old) != crate::diff::model::tag_of(new),
    ensures
        diff_node(old, new, path) == seq![
            PatchView {
                tag: crate::diff::model::tag_of(old),
                path,
                kind: PatchKindView::ReplaceNode(new),
            },
        ],
{
    assert(must_replace(old, new));
}

/// The removals of the old children from `i` on are one for each of them, in
/// ascending order, each at the place of its child.
pub proof fn lemma_trailing_removals(old: Seq<NodeView>, path: Seq<usize>, i: int)
    requires
        0 <= i <= old.len(),
    ensures
        trailing_removals(old, path, i).len() == old.len() - i,
        forall|k: int|
            0 <= k < old.len() - i ==> #[trigger] trailing_removals(old, path, i)[k] == removal(
                old,
                path,
                i + k,
            ),
    decreases old.len() - i,
{
    if i < old.len() {
        lemma_trailing_removals(old, path, i + 1);
        let rest = trailing_removals(old, path, i + 1);
        let all = trailing_removals(old, path, i);
        assert forall|k: int| 0 <= k < old.len() - i implies #[trigger] all[k] == removal(
            old,
            path,
            i + k,
        ) by {
            if k > 0 {
                assert(all[k] == rest[k - 1]);
            }
        }
    }
}

/// Where children are compared by position and the new ones are fewer, the
/// patches for them end with one removal for each old child that has no new
/// child at its position: none is left out and none are put together.
pub proof fn lemma_truncation(tag: Seq<char>, old: Seq<NodeView>, new: Seq<NodeView>, path: Seq<usize>)
    requires
        !any_keyed(old),
        !any_keyed(new),
        new.len() <= old.len(),
    ensures
        diff_children(tag, old, new, path) == positional_pairs(old, new, path, 0)
            + trailing_removals(old, path, new.len() as int),
        trailing_removals(old, path, new.len() as int).len() == old.len() - new.len(),
        forall|k: int|
            0 <= k < old.len() - new.len() ==> #[trigger] trailing_removals(
                old,
                path,
                new.len() as int,
            )[k] == removal(old, path, new.len() + k),
{
    lemma_trailing_removals(old, path, new.len() as int);
}

} // verus!

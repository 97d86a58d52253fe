use vstd::prelude::*;
use crate::vdom::attribute::{is_listener, merged, name_index, AttributeView};
use crate::vdom::node::{ElementView, NodeView};
use crate::vdom::patch::{PatchKindView, PatchView};
use crate::vdom::value::AttributeValueView;

verus! {

/// The key of a child: what tells it apart from its siblings.
pub type KeyView = Seq<AttributeValueView>;

/// The names of the events that the declarations `attrs` bind a listener to.
pub open spec fn listener_names(attrs: Seq<AttributeView>) -> Set<Seq<char>> {
    Set::new(
        |n: Seq<char>|
            exists|i: int|
                0 <= i < attrs.len() && is_listener(#[trigger] attrs[i]) && attrs[i].name == n,
    )
}

/// Whether nothing of `old` can be kept for `new`: one is text and the other an
/// element, or both are elements and their tags or the events that they listen
/// to differ.
pub open spec fn must_replace(old: NodeView, new: NodeView) -> bool {
    match (old, new) {
        (NodeView::Element(a), NodeView::Element(b)) => a.tag != b.tag || listener_names(a.attrs)
            != listener_names(b.attrs),
        (NodeView::Text(_), NodeView::Text(_)) => false,
        _ => true,
    }
}

/// The tag of a node, where it is an element.
pub open spec fn tag_of(n: NodeView) -> Option<Seq<char>> {
    match n {
        NodeView::Element(e) => Some(e.tag),
        NodeView::Text(_) => None,
    }
}

/// Whether the folded attribute `a` of the new element has to be set: it binds no
/// listener, and the old element, whose folded attributes are `old`, lacks its
/// name or has other values under it.
pub open spec fn is_changed(old: Seq<AttributeView>, a: AttributeView) -> bool {
    let j = name_index(old, a.name, 0);
    !is_listener(a) && (j < 0 || old[j].values != a.values)
}

/// The attributes among `new` that have to be set, in order.
pub open spec fn changed_attrs(old: Seq<AttributeView>, new: Seq<AttributeView>) -> Seq<
    AttributeView,
>
    decreases new.len(),
{
    if new.len() == 0 {
        Seq::empty()
    } else if is_changed(old, new.last()) {
        changed_attrs(old, new.drop_last()).push(new.last())
    } else {
        changed_attrs(old, new.drop_last())
    }
}

/// The attributes among `old` whose name `new` lacks, in order.
pub open spec fn dropped_attrs(old: Seq<AttributeView>, new: Seq<AttributeView>) -> Seq<
    AttributeView,
>
    decreases old.len(),
{
    if old.len() == 0 {
        Seq::empty()
    } else if name_index(new, old.last().name, 0) < 0 {
        dropped_attrs(old.drop_last(), new).push(old.last())
    } else {
        dropped_attrs(old.drop_last(), new)
    }
}

/// The patches for the attributes of an element: at most one that sets, then at
/// most one that unsets.
pub open spec fn attribute_patches(old: ElementView, new: ElementView, path: Seq<usize>) -> Seq<
    PatchView,
> {
    let add = changed_attrs(merged(old.attrs), merged(new.attrs));
    let remove = dropped_attrs(merged(old.attrs), merged(new.attrs));
    let first = if add.len() > 0 {
        seq![PatchView { tag: Some(old.tag), path, kind: PatchKindView::AddAttributes(add) }]
    } else {
        Seq::empty()
    };
    let second = if remove.len() > 0 {
        seq![PatchView { tag: Some(old.tag), path, kind: PatchKindView::RemoveAttributes(remove) }]
    } else {
        Seq::empty()
    };
    first + second
}

/// The key of a node: the values of its folded attribute `key`, where it is an
/// element and has one.
pub open spec fn key_of(n: NodeView) -> Option<KeyView> {
    match n {
        NodeView::Element(e) => {
            let m = merged(e.attrs);
            let j = name_index(m, "key"@, 0);
            if j >= 0 {
                Some(m[j].values)
            } else {
                None
            }
        },
        NodeView::Text(_) => None,
    }
}

/// Whether some node of `children` has a key.
pub open spec fn any_keyed(children: Seq<NodeView>) -> bool {
    exists|i: int| 0 <= i < children.len() && key_of(#[trigger] children[i]).is_some()
}

/// The keys of a list of children, in order.
pub open spec fn keys_of(children: Seq<NodeView>) -> Seq<Option<KeyView>> {
    Seq::new(children.len(), |i: int| key_of(children[i]))
}

/// The first position at or after `from` that holds the key `key`, or -1.
pub open spec fn key_index(keys: Seq<Option<KeyView>>, key: KeyView, from: int) -> int
    decreases keys.len() - from,
{
    if from < 0 || from >= keys.len() {
        -1
    } else if keys[from] == Some(key) {
        from
    } else {
        key_index(keys, key, from + 1)
    }
}

/// What `key_index` finds is the first position that holds the key.
pub proof fn lemma_key_index(keys: Seq<Option<KeyView>>, key: KeyView, from: int)
    requires
        0 <= from,
    ensures
        ({
            let r = key_index(keys, key, from);
            &&& r == -1 || (from <= r < keys.len() && keys[r] == Some(key))
            &&& forall|k: int| from <= k < keys.len() && (r == -1 || k < r) ==> (#[trigger] keys[k]) != Some(key)
        }),
    decreases keys.len() - from,
{
    if from < keys.len() && keys[from] != Some(key) {
        lemma_key_index(keys, key, from + 1);
    }
}

/// The old child that the new child at `j` is matched with, or -1: the new child
/// has a key, is the first of the new children with it, and the result is the
/// first old child with that key.
pub open spec fn partner(old: Seq<NodeView>, new: Seq<NodeView>, j: int) -> int {
    match key_of(new[j]) {
        Some(k) => if key_index(keys_of(new), k, 0) == j {
            key_index(keys_of(old), k, 0)
        } else {
            -1
        },
        None => -1,
    }
}

/// Whether the old child at `i` leaves: it has a key that no new child has.
pub open spec fn leaves(old: Seq<NodeView>, new: Seq<NodeView>, i: int) -> bool {
    match key_of(old[i]) {
        Some(k) => key_index(keys_of(new), k, 0) < 0,
        None => false,
    }
}

/// The patch that takes the old child at `i` of the element at `path` out.
pub open spec fn removal(old: Seq<NodeView>, path: Seq<usize>, i: int) -> PatchView {
    PatchView { tag: tag_of(old[i]), path: path.push(i as usize), kind: PatchKindView::RemoveNode }
}

/// One removal for each old child from `i` on that leaves, in ascending order.
pub open spec fn keyed_removals(
    old: Seq<NodeView>,
    new: Seq<NodeView>,
    path: Seq<usize>,
    i: int,
) -> Seq<PatchView>
    decreases old.len() - i,
{
    if i < 0 || i >= old.len() {
        Seq::empty()
    } else if leaves(old, new, i) {
        seq![removal(old, path, i)] + keyed_removals(old, new, path, i + 1)
    } else {
        keyed_removals(old, new, path, i + 1)
    }
}

/// One removal for each old child from `i` on, in ascending order.
pub open spec fn trailing_removals(old: Seq<NodeView>, path: Seq<usize>, i: int) -> Seq<PatchView>
    decreases old.len() - i,
{
    if i < 0 || i >= old.len() {
        Seq::empty()
    } else {
        seq![removal(old, path, i)] + trailing_removals(old, path, i + 1)
    }
}

/// The smaller of two lengths.
pub open spec fn shorter(a: int, b: int) -> int {
    if a <= b {
        a
    } else {
        b
    }
}

/// The patches that turn the tree `old`, which stands at `path`, into `new`.
///
/// A node that cannot be kept is replaced whole. A text leaf whose content
/// differs gets one patch. An element gets the patches for its attributes, then
/// those for its children: by key where a child on either side has a key, by
/// position otherwise.
pub open spec fn diff_node(old: NodeView, new: NodeView, path: Seq<usize>) -> Seq<PatchView>
    decreases new, 0nat,
{
    if must_replace(old, new) {
        seq![PatchView { tag: tag_of(old), path, kind: PatchKindView::ReplaceNode(new) }]
    } else {
        match (old, new) {
            (NodeView::Text(a), NodeView::Text(b)) => if a != b {
                seq![
                    PatchView {
                        tag: None,
                        path,
                        kind: PatchKindView::ChangeText { old: a, new: b },
                    },
                ]
            } else {
                Seq::empty()
            },
            (NodeView::Element(a), NodeView::Element(b)) => attribute_patches(a, b, path)
                + diff_children(a.tag, a.children, b.children, path),
            _ => Seq::empty(),
        }
    }
}

/// The patches for the children of an element whose tag is `tag`.
pub open spec fn diff_children(
    tag: Seq<char>,
    old: Seq<NodeView>,
    new: Seq<NodeView>,
    path: Seq<usize>,
) -> Seq<PatchView>
    decreases new, new.len() + 2,
{
    if any_keyed(old) || any_keyed(new) {
        keyed_matches(old, new, path, 0) + keyed_removals(old, new, path, 0)
    } else {
        positional_pairs(old, new, path, 0) + (if new.len() > old.len() {
            seq![
                PatchView {
                    tag: Some(tag),
                    path,
                    kind: PatchKindView::AppendChildren(new.subrange(old.len() as int, new.len() as int)),
                },
            ]
        } else {
            trailing_removals(old, path, new.len() as int)
        })
    }
}

/// The patches for the new children from `j` on that have a partner among the
/// old ones, in the order of the new children; each pair is compared at the
/// place of the old child.
pub open spec fn keyed_matches(
    old: Seq<NodeView>,
    new: Seq<NodeView>,
    path: Seq<usize>,
    j: int,
) -> Seq<PatchView>
    decreases new, new.len() - j,
{
    if j < 0 || j >= new.len() {
        Seq::empty()
    } else {
        let i = partner(old, new, j);
        let here = if 0 <= i < old.len() {
            diff_node(old[i], new[j], path.push(i as usize))
        } else {
            Seq::empty()
        };
        here + keyed_matches(old, new, path, j + 1)
    }
}

/// The patches for the pairs of children at equal positions from `i` on.
pub open spec fn positional_pairs(
    old: Seq<NodeView>,
    new: Seq<NodeView>,
    path: Seq<usize>,
    i: int,
) -> Seq<PatchView>
    decreases new, new.len() - i,
{
    if i < 0 || i >= shorter(old.len() as int, new.len() as int) {
        Seq::empty()
    } else {
        diff_node(old[i], new[i], path.push(i as usize)) + positional_pairs(old, new, path, i + 1)
    }
}

/// The patches that turn the tree `old` into the tree `new`.
pub open spec fn diff_trees(old: NodeView, new: NodeView) -> Seq<PatchView> {
    diff_node(old, new, seq![0usize])
}

} // verus!

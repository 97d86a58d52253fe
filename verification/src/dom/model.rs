use vstd::prelude::*;
use crate::diff::model::listener_names;
use crate::dom::error::PatchError;
use crate::dom::live::{children_of, id_of, LiveElementView, LiveNodeView, ListenerView};
use crate::vdom::attribute::{is_listener, merged, name_index, AttributeView};
use crate::vdom::node::NodeView;
use crate::vdom::patch::{PatchKindView, PatchView};
use crate::vdom::value::AttributeValueView;

verus! {

/// A listener handle that the registry owns: the listener and the node that it
/// is attached to.
pub struct HandleView {
    pub node: u64,
    pub event: Seq<char>,
    pub callback: u64,
}

/// The first node in document order of the tree `n` with identity `id`.
pub open spec fn find_first(n: LiveNodeView, id: u64) -> Option<LiveNodeView>
    decreases n, 0nat,
{
    if id_of(n) == id {
        Some(n)
    } else {
        match n {
            LiveNodeView::Text { .. } => None,
            LiveNodeView::Element(e) => find_from(e.children, id, 0),
        }
    }
}

/// The first node in document order with identity `id` in the trees from `i` on.
pub open spec fn find_from(c: Seq<LiveNodeView>, id: u64, i: int) -> Option<LiveNodeView>
    decreases c, c.len() - i,
{
    if i < 0 || i >= c.len() {
        None
    } else {
        match find_first(c[i], id) {
            Some(s) => Some(s),
            None => find_from(c, id, i + 1),
        }
    }
}

/// Whether the tree `n` holds a node with identity `id`.
pub open spec fn contains_id(n: LiveNodeView, id: u64) -> bool {
    find_first(n, id).is_some()
}

/// The identity of the node that `p` leads to from `n`, one child ordinal per level.
pub open spec fn descend(n: LiveNodeView, p: Seq<usize>) -> Option<u64>
    decreases p.len(),
{
    if p.len() == 0 {
        Some(id_of(n))
    } else if p[0] < children_of(n).len() {
        descend(children_of(n)[p[0] as int], p.skip(1))
    } else {
        None
    }
}

/// The identity of the node at `path` in the tree `root`: the first ordinal, 0,
/// selects the root itself.
pub open spec fn resolve(root: LiveNodeView, path: Seq<usize>) -> Option<u64> {
    if path.len() > 0 && path[0] == 0 {
        descend(root, path.skip(1))
    } else {
        None
    }
}

/// The handles of the listeners `ls` when they are attached to the node `id`.
pub open spec fn own_handles(id: u64, ls: Seq<ListenerView>) -> Seq<HandleView> {
    Seq::new(ls.len(), |k: int| HandleView { node: id, event: ls[k].event, callback: ls[k].callback })
}

/// The handles of all listeners that are attached in the tree `n`, in document order.
pub open spec fn handles(n: LiveNodeView) -> Seq<HandleView>
    decreases n, 0nat,
{
    match n {
        LiveNodeView::Text { .. } => Seq::empty(),
        LiveNodeView::Element(e) => own_handles(e.id, e.listeners) + forest_handles(
            e.children,
            e.children.len() as int,
        ),
    }
}

/// The handles of all listeners in the first `k` trees of `c`.
pub open spec fn forest_handles(c: Seq<LiveNodeView>, k: int) -> Seq<HandleView>
    decreases c, k,
{
    if k <= 0 || k > c.len() {
        Seq::empty()
    } else {
        forest_handles(c, k - 1) + handles(c[k - 1])
    }
}

/// The number of nodes of a virtual tree.
pub open spec fn count(n: NodeView) -> nat
    decreases n, 0nat,
{
    match n {
        NodeView::Text(_) => 1,
        NodeView::Element(e) => 1 + count_first(e.children, e.children.len() as int),
    }
}

/// The number of nodes of the first `k` trees of `c`.
pub open spec fn count_first(c: Seq<NodeView>, k: int) -> nat
    decreases c, k,
{
    if k <= 0 || k > c.len() {
        0
    } else {
        count_first(c, k - 1) + count(c[k - 1])
    }
}

/// The listeners that the values `values` of an attribute called `event` bind.
pub open spec fn listeners_in(event: Seq<char>, values: Seq<AttributeValueView>) -> Seq<
    ListenerView,
>
    decreases values.len(),
{
    if values.len() == 0 {
        Seq::empty()
    } else {
        let rest = listeners_in(event, values.drop_last());
        match values.last() {
            AttributeValueView::EventListener(cb) => rest.push(ListenerView { event, callback: cb }),
            _ => rest,
        }
    }
}

/// The listeners that the attributes `attrs` bind, in order.
pub open spec fn attached(attrs: Seq<AttributeView>) -> Seq<ListenerView>
    decreases attrs.len(),
{
    if attrs.len() == 0 {
        Seq::empty()
    } else {
        attached(attrs.drop_last()) + listeners_in(attrs.last().name, attrs.last().values)
    }
}

/// `cur` with the attribute `a` set: in the place of the attribute of its name
/// where `cur` has one, at the end otherwise.
pub open spec fn set_attr(cur: Seq<AttributeView>, a: AttributeView) -> Seq<AttributeView> {
    let j = name_index(cur, a.name, 0);
    if j >= 0 {
        cur.update(j, a)
    } else {
        cur.push(a)
    }
}

/// `cur` with each attribute of `attrs` that binds no listener set, in order.
pub open spec fn set_all(cur: Seq<AttributeView>, attrs: Seq<AttributeView>) -> Seq<AttributeView>
    decreases attrs.len(),
{
    if attrs.len() == 0 {
        cur
    } else if is_listener(attrs.last()) {
        set_all(cur, attrs.drop_last())
    } else {
        set_attr(set_all(cur, attrs.drop_last()), attrs.last())
    }
}

/// The names of the attributes of `attrs` that bind no listener.
pub open spec fn plain_names(attrs: Seq<AttributeView>) -> Set<Seq<char>> {
    Set::new(
        |n: Seq<char>|
            exists|i: int|
                0 <= i < attrs.len() && !is_listener(#[trigger] attrs[i]) && attrs[i].name == n,
    )
}

/// The attributes of `cur` whose name is none of `names`, in order.
pub open spec fn unset_all(cur: Seq<AttributeView>, names: Set<Seq<char>>) -> Seq<AttributeView>
    decreases cur.len(),
{
    if cur.len() == 0 {
        Seq::empty()
    } else if names.contains(cur.last().name) {
        unset_all(cur.drop_last(), names)
    } else {
        unset_all(cur.drop_last(), names).push(cur.last())
    }
}

/// The listeners of `ls` for an event among `events` where `hit` is set, and
/// for any other event where it is not; in order.
pub open spec fn pick_listeners(ls: Seq<ListenerView>, events: Set<Seq<char>>, hit: bool) -> Seq<
    ListenerView,
>
    decreases ls.len(),
{
    if ls.len() == 0 {
        Seq::empty()
    } else if events.contains(ls.last().event) == hit {
        pick_listeners(ls.drop_last(), events, hit).push(ls.last())
    } else {
        pick_listeners(ls.drop_last(), events, hit)
    }
}

/// The live tree that stands for the virtual tree `n` when identities are
/// handed out from `next` on in document order: the attributes folded, those
/// that bind no listener set, the listeners of the others attached.
pub open spec fn materialized(n: NodeView, next: int) -> LiveNodeView
    decreases n,
{
    match n {
        NodeView::Text(t) => LiveNodeView::Text { id: next as u64, text: t },
        NodeView::Element(e) => LiveNodeView::Element(
            LiveElementView {
                id: next as u64,
                namespace: e.namespace,
                tag: e.tag,
                attrs: set_all(Seq::empty(), merged(e.attrs)),
                listeners: attached(merged(e.attrs)),
                children: Seq::new(
                    e.children.len(),
                    |i: int|
                        if 0 <= i < e.children.len() {
                            materialized(e.children[i], next + 1 + count_first(e.children, i))
                        } else {
                            LiveNodeView::Text { id: 0, text: Seq::empty() }
                        },
                ),
            },
        ),
    }
}

/// The live trees that stand for the virtual trees `c` when identities are
/// handed out from `next` on.
pub open spec fn materialized_all(c: Seq<NodeView>, next: int) -> Seq<LiveNodeView> {
    Seq::new(c.len(), |i: int| materialized(c[i], next + count_first(c, i)))
}

/// What is done to a live node: a patch whose new nodes have been materialized.
pub enum EditView {
    SetAttributes(Seq<AttributeView>),
    UnsetAttributes(Seq<AttributeView>),
    Replace(LiveNodeView),
    Append(Seq<LiveNodeView>),
    Remove,
    SetText(Seq<char>),
}

/// Whether a patch of this kind can be carried out on the node `n`: attributes
/// and children belong to elements, text to text leaves.
pub open spec fn fits(n: LiveNodeView, kind: PatchKindView) -> bool {
    match kind {
        PatchKindView::AddAttributes(_) => n is Element,
        PatchKindView::RemoveAttributes(_) => n is Element,
        PatchKindView::AppendChildren(_) => n is Element,
        PatchKindView::ChangeText { .. } => n is Text,
        PatchKindView::ReplaceNode(_) => true,
        PatchKindView::RemoveNode => true,
    }
}

/// The number of identities that a patch of this kind takes.
pub open spec fn demand(kind: PatchKindView) -> nat {
    match kind {
        PatchKindView::ReplaceNode(n) => count(n),
        PatchKindView::AppendChildren(c) => count_first(c, c.len() as int),
        _ => 0,
    }
}

/// The edit that a patch of this kind stands for when identities are handed
/// out from `next` on.
pub open spec fn prepared(kind: PatchKindView, next: u64) -> EditView {
    match kind {
        PatchKindView::AddAttributes(a) => EditView::SetAttributes(a),
        PatchKindView::RemoveAttributes(a) => EditView::UnsetAttributes(a),
        PatchKindView::ReplaceNode(n) => EditView::Replace(materialized(n, next as int)),
        PatchKindView::AppendChildren(c) => EditView::Append(materialized_all(c, next as int)),
        PatchKindView::RemoveNode => EditView::Remove,
        PatchKindView::ChangeText { old, new } => EditView::SetText(new),
    }
}

/// The node `n` after the edit; a removal leaves the node itself alone.
pub open spec fn edited(n: LiveNodeView, edit: EditView) -> LiveNodeView {
    match (n, edit) {
        (LiveNodeView::Element(e), EditView::SetAttributes(a)) => LiveNodeView::Element(
            LiveElementView {
                attrs: set_all(e.attrs, a),
                listeners: e.listeners + attached(a),
                ..e
            },
        ),
        (LiveNodeView::Element(e), EditView::UnsetAttributes(a)) => LiveNodeView::Element(
            LiveElementView {
                attrs: unset_all(e.attrs, plain_names(a)),
                listeners: pick_listeners(e.listeners, listener_names(a), false),
                ..e
            },
        ),
        (LiveNodeView::Element(e), EditView::Append(c)) => LiveNodeView::Element(
            LiveElementView { children: e.children + c, ..e },
        ),
        (LiveNodeView::Text { id, text }, EditView::SetText(t)) => LiveNodeView::Text { id, text: t },
        (_, EditView::Replace(new)) => new,
        _ => n,
    }
}

/// The first position at or after `i` of a tree that holds a node with identity
/// `id`, or -1.
pub open spec fn holder(c: Seq<LiveNodeView>, id: u64, i: int) -> int
    decreases c.len() - i,
{
    if i < 0 || i >= c.len() {
        -1
    } else if contains_id(c[i], id) {
        i
    } else {
        holder(c, id, i + 1)
    }
}

/// The tree `n` with the edit made to its first node in document order that
/// has identity `id`; unchanged where it holds no such node.
pub open spec fn edit_first(n: LiveNodeView, id: u64, edit: EditView) -> LiveNodeView
    decreases n,
{
    if id_of(n) == id {
        edited(n, edit)
    } else {
        match n {
            LiveNodeView::Text { .. } => n,
            LiveNodeView::Element(e) => {
                let j = holder(e.children, id, 0);
                if 0 <= j < e.children.len() {
                    LiveNodeView::Element(
                        LiveElementView {
                            children: e.children.update(j, edit_first(e.children[j], id, edit)),
                            ..e
                        },
                    )
                } else {
                    n
                }
            },
        }
    }
}

/// The tree `n` without the first node in document order below its root that
/// has identity `id`; unchanged where it holds no such node.
pub open spec fn remove_first(n: LiveNodeView, id: u64) -> LiveNodeView
    decreases n,
{
    match n {
        LiveNodeView::Text { .. } => n,
        LiveNodeView::Element(e) => {
            let j = holder(e.children, id, 0);
            if 0 <= j < e.children.len() {
                if id_of(e.children[j]) == id {
                    LiveNodeView::Element(LiveElementView { children: e.children.remove(j), ..e })
                } else {
                    LiveNodeView::Element(
                        LiveElementView {
                            children: e.children.update(j, remove_first(e.children[j], id)),
                            ..e
                        },
                    )
                }
            } else {
                n
            }
        },
    }
}

/// The first position at or after `from` that holds the handle `h`, or -1.
pub open spec fn handle_index(reg: Seq<HandleView>, h: HandleView, from: int) -> int
    decreases reg.len() - from,
{
    if from < 0 || from >= reg.len() {
        -1
    } else if reg[from] == h {
        from
    } else {
        handle_index(reg, h, from + 1)
    }
}

/// The registry without the first handle equal to `h`; unchanged where it holds none.
pub open spec fn without(reg: Seq<HandleView>, h: HandleView) -> Seq<HandleView> {
    let j = handle_index(reg, h, 0);
    if j >= 0 {
        reg.remove(j)
    } else {
        reg
    }
}

/// The registry after each handle of `hs` has been released, in order.
pub open spec fn released(reg: Seq<HandleView>, hs: Seq<HandleView>) -> Seq<HandleView>
    decreases hs.len(),
{
    if hs.len() == 0 {
        reg
    } else {
        without(released(reg, hs.drop_last()), hs.last())
    }
}

/// The node of `new` that stands where the node `f` stands in `old`, where both
/// are elements of one tag.
pub open spec fn counterpart(old: LiveNodeView, new: LiveNodeView, f: u64) -> Option<u64>
    decreases old, 0nat,
{
    if id_of(old) == f {
        match (old, new) {
            (LiveNodeView::Element(a), LiveNodeView::Element(b)) => if a.tag == b.tag {
                Some(b.id)
            } else {
                None
            },
            _ => None,
        }
    } else {
        match old {
            LiveNodeView::Element(a) => counterpart_from(a.children, children_of(new), f, 0),
            LiveNodeView::Text { .. } => None,
        }
    }
}

/// The counterpart of `f` under the first of the trees `old` from `i` on that holds it.
pub open spec fn counterpart_from(
    old: Seq<LiveNodeView>,
    new: Seq<LiveNodeView>,
    f: u64,
    i: int,
) -> Option<u64>
    decreases old, old.len() - i,
{
    if i < 0 || i >= old.len() {
        None
    } else if contains_id(old[i], f) {
        if i < new.len() {
            counterpart(old[i], new[i], f)
        } else {
            None
        }
    } else {
        counterpart_from(old, new, f, i + 1)
    }
}

/// The registry after the edit of the node `s`.
pub open spec fn registry_after(reg: Seq<HandleView>, s: LiveNodeView, edit: EditView) -> Seq<
    HandleView,
> {
    match edit {
        EditView::SetAttributes(a) => match s {
            LiveNodeView::Element(e) => reg + own_handles(e.id, attached(a)),
            _ => reg,
        },
        EditView::UnsetAttributes(a) => match s {
            LiveNodeView::Element(e) => released(
                reg,
                own_handles(e.id, pick_listeners(e.listeners, listener_names(a), true)),
            ),
            _ => reg,
        },
        EditView::Replace(new) => released(reg, handles(s)) + handles(new),
        EditView::Append(c) => reg + forest_handles(c, c.len() as int),
        EditView::Remove => released(reg, handles(s)),
        EditView::SetText(_) => reg,
    }
}

/// The focus after the edit of the node `s`: it moves to the counterpart of the
/// focused node where that node is replaced, and is lost where it is removed.
pub open spec fn focus_after(focus: Option<u64>, s: LiveNodeView, edit: EditView) -> Option<u64> {
    match focus {
        Some(f) => if contains_id(s, f) {
            match edit {
                EditView::Replace(new) => counterpart(s, new, f),
                EditView::Remove => None,
                _ => focus,
            }
        } else {
            focus
        },
        None => None,
    }
}

/// A live tree with what belongs to it.
pub struct LiveState {
    pub root: LiveNodeView,
    /// The handles that the registry owns, in the order in which they were registered.
    pub registry: Seq<HandleView>,
    /// The identity of the node that has the focus.
    pub focus: Option<u64>,
    /// The next identity to hand out.
    pub next_id: u64,
}

/// How one patch ends.
pub enum StepView {
    Done(LiveState),
    Failed(PatchError),
}

/// The outcome of the patch of kind `kind` on the node with identity `target`.
///
/// It fails, and changes nothing, where the tree holds no such node, where the
/// kind does not fit the node, where the identities do not suffice for the new
/// nodes, and where the root is to be removed.
pub open spec fn step(s: LiveState, target: u64, kind: PatchKindView) -> StepView {
    match find_first(s.root, target) {
        None => StepView::Failed(PatchError::PathResolutionFailure),
        Some(node) => if !fits(node, kind) || s.next_id + demand(kind) > u64::MAX || (kind
            is RemoveNode && id_of(s.root) == target) {
            StepView::Failed(PatchError::BackendMutationFailure)
        } else {
            let edit = prepared(kind, s.next_id);
            StepView::Done(
                LiveState {
                    root: if edit is Remove {
                        remove_first(s.root, target)
                    } else {
                        edit_first(s.root, target, edit)
                    },
                    registry: registry_after(s.registry, node, edit),
                    focus: focus_after(s.focus, node, edit),
                    next_id: (s.next_id + demand(kind)) as u64,
                },
            )
        },
    }
}

/// Where a list of patches ends: the state that it leaves, and the failure that
/// stopped it, if one did.
pub struct Outcome {
    pub state: LiveState,
    pub error: Option<PatchError>,
}

/// The outcome of the patches from `k` on, each on its own target, in order, up
/// to the first that fails.
pub open spec fn run(s: LiveState, targets: Seq<u64>, patches: Seq<PatchView>, k: int) -> Outcome
    decreases patches.len() - k,
{
    if k < 0 || k >= patches.len() || k >= targets.len() {
        Outcome { state: s, error: None }
    } else {
        match step(s, targets[k], patches[k].kind) {
            StepView::Done(next) => run(next, targets, patches, k + 1),
            StepView::Failed(e) => Outcome { state: s, error: Some(e) },
        }
    }
}

/// Whether each of the patches addresses a node of the tree `root`.
pub open spec fn all_resolve(root: LiveNodeView, patches: Seq<PatchView>) -> bool {
    forall|k: int| 0 <= k < patches.len() ==> resolve(root, (#[trigger] patches[k]).path).is_some()
}

/// The identities of the nodes that the patches address in the tree `root`.
pub open spec fn targets_of(root: LiveNodeView, patches: Seq<PatchView>) -> Seq<u64> {
    Seq::new(patches.len(), |k: int| resolve(root, patches[k].path).unwrap())
}

/// The outcome of a list of patches on a live tree.
///
/// Every patch is first resolved to the node that its path addresses in the
/// tree as it stands; where one does not resolve, nothing is changed. The
/// patches are then carried out in order, each on the node that it was
/// resolved to, up to the first that fails.
pub open spec fn applied(s: LiveState, patches: Seq<PatchView>) -> Outcome {
    if all_resolve(s.root, patches) {
        run(s, targets_of(s.root, patches), patches, 0)
    } else {
        Outcome { state: s, error: Some(PatchError::PathResolutionFailure) }
    }
}

} // verus!

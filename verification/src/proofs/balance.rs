use vstd::prelude::*;
use vstd::multiset::*;
use vstd::seq_lib::*;
use crate::diff::model::listener_names;
use crate::dom::live::{id_of, ListenerView, LiveElementView, LiveNodeView};
use crate::dom::model::{
    all_resolve, applied, attached, contains_id, edit_first, edited, find_first, find_from,
    forest_handles, handle_index, handles, holder, own_handles, pick_listeners, prepared,
    released, remove_first, run, step, targets_of, without, EditView, HandleView, LiveState,
    StepView,
};
use crate::vdom::patch::{PatchKindView, PatchView};

verus! {

/// The handles of all listeners in the trees `c`.
pub open spec fn whole(c: Seq<LiveNodeView>) -> Seq<HandleView> {
    forest_handles(c, c.len() as int)
}

/// The handles in the first trees of a list depend on those trees alone.
pub proof fn lemma_forest_agree(a: Seq<LiveNodeView>, b: Seq<LiveNodeView>, k: int)
    requires
        0 <= k <= a.len(),
        k <= b.len(),
        forall|i: int| 0 <= i < k ==> a[i] == b[i],
    ensures
        forest_handles(a, k) == forest_handles(b, k),
    decreases k,
{
    if k > 0 {
        lemma_forest_agree(a, b, k - 1);
    }
}

/// The handles in two lists of trees, one after the other.
pub proof fn lemma_forest_concat(a: Seq<LiveNodeView>, b: Seq<LiveNodeView>, k: int)
    requires
        0 <= k <= b.len(),
    ensures
        forest_handles(a + b, a.len() + k) == whole(a) + forest_handles(b, k),
    decreases k,
{
    if k == 0 {
        lemma_forest_agree(a + b, a, a.len() as int);
        assert(whole(a) + forest_handles(b, 0) =~= whole(a));
    } else {
        lemma_forest_concat(a, b, k - 1);
        assert((a + b)[a.len() + k - 1] == b[k - 1]);
        assert(forest_handles(a + b, a.len() + k) =~= whole(a) + forest_handles(b, k));
    }
}

/// The handles in a list of trees: those before the tree at `j`, those in it,
/// and those after it.
pub proof fn lemma_whole_at(c: Seq<LiveNodeView>, j: int)
    requires
        0 <= j < c.len(),
    ensures
        whole(c) == whole(c.take(j)) + handles(c[j]) + whole(c.skip(j + 1)),
{
    let one = seq![c[j]];
    assert(c =~= c.take(j) + one + c.skip(j + 1));
    lemma_forest_concat(c.take(j) + one, c.skip(j + 1), c.skip(j + 1).len() as int);
    lemma_forest_concat(c.take(j), one, 1);
    assert(forest_handles(one, 1) =~= handles(c[j])) by {
        assert(forest_handles(one, 0) =~= Seq::<HandleView>::empty());
    }
    assert((c.take(j) + one + c.skip(j + 1)).len() == c.len());
    assert((c.take(j) + one).len() == j + 1);
}

/// What `holder` finds is the tree in which the search from `i` on succeeds.
pub proof fn lemma_find_holder(c: Seq<LiveNodeView>, id: u64, i: int)
    requires
        0 <= i,
    ensures
        ({
            let j = holder(c, id, i);
            if j >= 0 {
                i <= j < c.len() && find_from(c, id, i) == find_first(c[j], id) && find_first(
                    c[j],
                    id,
                ).is_some()
            } else {
                j == -1 && find_from(c, id, i).is_none()
            }
        }),
    decreases c.len() - i,
{
    if i < c.len() && !contains_id(c[i], id) {
        lemma_find_holder(c, id, i + 1);
    }
}

/// The number of handles equal to `h` in a multiset sum.
proof fn lemma_count_add(a: Seq<HandleView>, b: Seq<HandleView>, h: HandleView)
    ensures
        (a + b).to_multiset().count(h) == a.to_multiset().count(h) + b.to_multiset().count(h),
{
    broadcast use group_multiset_axioms;

    lemma_multiset_commutative(a, b);
}

/// How often the handle `h` occurs in `s`.
pub open spec fn occurs(s: Seq<HandleView>, h: HandleView) -> nat {
    s.to_multiset().count(h)
}

/// Whether two lists hold the same handles, each as often as the other.
pub open spec fn same_handles(a: Seq<HandleView>, b: Seq<HandleView>) -> bool {
    forall|h: HandleView| occurs(a, h) == occurs(b, h)
}

/// Whether each handle occurs in `a` at most as often as in `b`.
pub open spec fn within(a: Seq<HandleView>, b: Seq<HandleView>) -> bool {
    forall|h: HandleView| occurs(a, h) <= occurs(b, h)
}

/// A handle occurs in a concatenation as often as in both parts together.
pub proof fn lemma_occurs_concat(a: Seq<HandleView>, b: Seq<HandleView>)
    ensures
        forall|h: HandleView| #[trigger] occurs(a + b, h) == occurs(a, h) + occurs(b, h),
{
    assert forall|h: HandleView| #[trigger] occurs(a + b, h) == occurs(a, h) + occurs(b, h) by {
        lemma_count_add(a, b, h);
    }
}

/// A handle occurs in a list with one more handle at its end once more if it is that handle.
pub proof fn lemma_occurs_push(a: Seq<HandleView>, x: HandleView)
    ensures
        forall|h: HandleView|
            #[trigger] occurs(a.push(x), h) == occurs(a, h) + (if h == x {
                1nat
            } else {
                0nat
            }),
{
    broadcast use group_multiset_axioms;

    to_multiset_build(a, x);
}

/// The empty list holds no handle.
pub proof fn lemma_occurs_empty()
    ensures
        forall|h: HandleView| #[trigger] occurs(Seq::<HandleView>::empty(), h) == 0,
{
    broadcast use group_multiset_axioms;

    to_multiset_len(Seq::<HandleView>::empty());
    lemma_multiset_empty_len(Seq::<HandleView>::empty().to_multiset());
}

/// What `handle_index` finds is the first handle equal to `h`.
pub proof fn lemma_handle_index(reg: Seq<HandleView>, h: HandleView, from: int)
    requires
        0 <= from,
    ensures
        ({
            let r = handle_index(reg, h, from);
            &&& r == -1 || (from <= r < reg.len() && reg[r] == h)
            &&& r == -1 ==> forall|k: int| from <= k < reg.len() ==> reg[k] != h
        }),
    decreases reg.len() - from,
{
    if from < reg.len() && reg[from] != h {
        lemma_handle_index(reg, h, from + 1);
    }
}

/// Releasing a handle takes one occurrence of it away, where there is one.
pub proof fn lemma_without(reg: Seq<HandleView>, x: HandleView)
    ensures
        forall|h: HandleView|
            #[trigger] occurs(without(reg, x), h) == if h == x && occurs(reg, x) > 0 {
                (occurs(reg, h) - 1) as nat
            } else {
                occurs(reg, h)
            },
{
    broadcast use group_multiset_axioms;

    lemma_handle_index(reg, x, 0);
    to_multiset_contains(reg, x);
    let j = handle_index(reg, x, 0);
    if j >= 0 {
        to_multiset_remove(reg, j);
        assert(reg.contains(x));
    } else {
        assert(!reg.contains(x));
    }
}

/// Releasing handles that the registry holds takes exactly them away.
pub proof fn lemma_released(reg: Seq<HandleView>, hs: Seq<HandleView>)
    requires
        within(hs, reg),
    ensures
        forall|h: HandleView| #[trigger] occurs(released(reg, hs), h) + occurs(hs, h) == occurs(reg, h),
    decreases hs.len(),
{
    if hs.len() == 0 {
        lemma_occurs_empty();
        assert(hs =~= Seq::<HandleView>::empty());
    } else {
        let init = hs.drop_last();
        let x = hs.last();
        assert(hs =~= init.push(x));
        lemma_occurs_push(init, x);
        assert forall|h: HandleView| occurs(init, h) <= occurs(reg, h) by {
            assert(occurs(hs, h) <= occurs(reg, h));
            assert(occurs(init.push(x), h) >= occurs(init, h));
        }
        lemma_released(reg, init);
        let r = released(reg, init);
        lemma_without(r, x);
        assert(occurs(r, x) + occurs(init, x) == occurs(reg, x));
        assert(occurs(hs, x) <= occurs(reg, x));
        assert(occurs(hs, x) == occurs(init, x) + 1);
        assert forall|h: HandleView| #[trigger]
            occurs(released(reg, hs), h) + occurs(hs, h) == occurs(reg, h) by {
            assert(occurs(r, h) + occurs(init, h) == occurs(reg, h));
            assert(occurs(hs, h) == occurs(init.push(x), h));
        }
    }
}

/// The handles of listeners attached to one node, one list after the other.
pub proof fn lemma_own_concat(id: u64, a: Seq<ListenerView>, b: Seq<ListenerView>)
    ensures
        own_handles(id, a + b) == own_handles(id, a) + own_handles(id, b),
{
    assert(own_handles(id, a + b) =~= own_handles(id, a) + own_handles(id, b));
}

/// The listeners for the events among `events` and the others make up all listeners.
pub proof fn lemma_pick_partition(id: u64, ls: Seq<ListenerView>, events: Set<Seq<char>>)
    ensures
        forall|h: HandleView|
            #[trigger] occurs(own_handles(id, ls), h) == occurs(
                own_handles(id, pick_listeners(ls, events, false)),
                h,
            ) + occurs(own_handles(id, pick_listeners(ls, events, true)), h),
    decreases ls.len(),
{
    if ls.len() == 0 {
        lemma_occurs_empty();
        assert(own_handles(id, ls) =~= Seq::<HandleView>::empty());
        assert(own_handles(id, pick_listeners(ls, events, false)) =~= Seq::<HandleView>::empty());
        assert(own_handles(id, pick_listeners(ls, events, true)) =~= Seq::<HandleView>::empty());
    } else {
        let init = ls.drop_last();
        let l = ls.last();
        let x = HandleView { node: id, event: l.event, callback: l.callback };
        lemma_pick_partition(id, init, events);
        assert(own_handles(id, ls) =~= own_handles(id, init).push(x));
        lemma_occurs_push(own_handles(id, init), x);
        let yes = pick_listeners(init, events, true);
        let no = pick_listeners(init, events, false);
        if events.contains(l.event) {
            assert(own_handles(id, pick_listeners(ls, events, true)) =~= own_handles(id, yes).push(x));
            lemma_occurs_push(own_handles(id, yes), x);
            assert(pick_listeners(ls, events, false) == no);
        } else {
            assert(own_handles(id, pick_listeners(ls, events, false)) =~= own_handles(id, no).push(x));
            lemma_occurs_push(own_handles(id, no), x);
            assert(pick_listeners(ls, events, true) == yes);
        }
        assert forall|h: HandleView|
            #[trigger] occurs(own_handles(id, ls), h) == occurs(
                own_handles(id, pick_listeners(ls, events, false)),
                h,
            ) + occurs(own_handles(id, pick_listeners(ls, events, true)), h) by {
            assert(occurs(own_handles(id, init), h) == occurs(own_handles(id, no), h) + occurs(
                own_handles(id, yes),
                h,
            ));
        }
    }
}

/// The handles in an element: its own, those before the child at `j`, those in
/// that child, and those after it.
pub proof fn lemma_element_occurs(e: LiveElementView, j: int)
    requires
        0 <= j < e.children.len(),
    ensures
        forall|h: HandleView|
            #[trigger] occurs(handles(LiveNodeView::Element(e)), h) == occurs(
                own_handles(e.id, e.listeners),
                h,
            ) + occurs(whole(e.children.take(j)), h) + occurs(handles(e.children[j]), h) + occurs(
                whole(e.children.skip(j + 1)),
                h,
            ),
{
    let c = e.children;
    lemma_whole_at(c, j);
    lemma_occurs_concat(own_handles(e.id, e.listeners), whole(c));
    lemma_occurs_concat(whole(c.take(j)) + handles(c[j]), whole(c.skip(j + 1)));
    lemma_occurs_concat(whole(c.take(j)), handles(c[j]));
}

/// The handles in an element without its child at `j`.
pub proof fn lemma_element_occurs_without(e: LiveElementView, j: int)
    requires
        0 <= j < e.children.len(),
    ensures
        forall|h: HandleView|
            #[trigger] occurs(
                handles(LiveNodeView::Element(LiveElementView { children: e.children.remove(j), ..e })),
                h,
            ) == occurs(own_handles(e.id, e.listeners), h) + occurs(whole(e.children.take(j)), h)
                + occurs(whole(e.children.skip(j + 1)), h),
{
    let c = e.children;
    let a = c.take(j);
    let b = c.skip(j + 1);
    assert(c.remove(j) =~= a + b);
    lemma_forest_concat(a, b, b.len() as int);
    lemma_occurs_concat(own_handles(e.id, e.listeners), whole(a + b));
    lemma_occurs_concat(whole(a), whole(b));
}

/// The handles in a node that a tree holds are among the handles in the tree.
pub proof fn lemma_find_within(n: LiveNodeView, id: u64)
    requires
        find_first(n, id).is_some(),
    ensures
        within(handles(find_first(n, id).unwrap()), handles(n)),
    decreases n,
{
    if id_of(n) != id {
        match n {
            LiveNodeView::Text { .. } => {},
            LiveNodeView::Element(e) => {
                lemma_find_holder(e.children, id, 0);
                let j = holder(e.children, id, 0);
                lemma_find_within(e.children[j], id);
                lemma_element_occurs(e, j);
                let s = find_first(n, id).unwrap();
                assert forall|h: HandleView| occurs(handles(s), h) <= occurs(handles(n), h) by {
                    assert(occurs(handles(s), h) <= occurs(handles(e.children[j]), h));
                }
            },
        }
    }
}

/// An edit changes the handles in a tree as it changes those in the edited node.
pub proof fn lemma_edit_first_handles(n: LiveNodeView, id: u64, edit: EditView)
    requires
        find_first(n, id).is_some(),
    ensures
        forall|h: HandleView|
            #[trigger] occurs(handles(edit_first(n, id, edit)), h) + occurs(
                handles(find_first(n, id).unwrap()),
                h,
            ) == occurs(handles(n), h) + occurs(handles(edited(find_first(n, id).unwrap(), edit)), h),
    decreases n,
{
    if id_of(n) != id {
        match n {
            LiveNodeView::Text { .. } => {},
            LiveNodeView::Element(e) => {
                lemma_find_holder(e.children, id, 0);
                let j = holder(e.children, id, 0);
                let x = edit_first(e.children[j], id, edit);
                let s = find_first(n, id).unwrap();
                lemma_edit_first_handles(e.children[j], id, edit);
                let e2 = LiveElementView { children: e.children.update(j, x), ..e };
                lemma_element_occurs(e, j);
                lemma_element_occurs(e2, j);
                assert(e2.children.take(j) =~= e.children.take(j));
                assert(e2.children.skip(j + 1) =~= e.children.skip(j + 1));
                assert forall|h: HandleView|
                    #[trigger] occurs(handles(edit_first(n, id, edit)), h) + occurs(handles(s), h)
                        == occurs(handles(n), h) + occurs(handles(edited(s, edit)), h) by {
                    assert(occurs(handles(x), h) + occurs(handles(s), h) == occurs(
                        handles(e.children[j]),
                        h,
                    ) + occurs(handles(edited(s, edit)), h));
                    assert(occurs(handles(LiveNodeView::Element(e2)), h) == occurs(
                        own_handles(e.id, e.listeners),
                        h,
                    ) + occurs(whole(e.children.take(j)), h) + occurs(handles(x), h) + occurs(
                        whole(e.children.skip(j + 1)),
                        h,
                    ));
                }
            },
        }
    }
}

/// A removal takes the handles in the removed node out of those in the tree.
pub proof fn lemma_remove_first_handles(n: LiveNodeView, id: u64)
    requires
        id_of(n) != id,
        find_first(n, id).is_some(),
    ensures
        forall|h: HandleView|
            #[trigger] occurs(handles(remove_first(n, id)), h) + occurs(
                handles(find_first(n, id).unwrap()),
                h,
            ) == occurs(handles(n), h),
    decreases n,
{
    match n {
        LiveNodeView::Text { .. } => {},
        LiveNodeView::Element(e) => {
            lemma_find_holder(e.children, id, 0);
            let j = holder(e.children, id, 0);
            let s = find_first(n, id).unwrap();
            lemma_element_occurs(e, j);
            if id_of(e.children[j]) == id {
                lemma_element_occurs_without(e, j);
            } else {
                let x = remove_first(e.children[j], id);
                lemma_remove_first_handles(e.children[j], id);
                let e2 = LiveElementView { children: e.children.update(j, x), ..e };
                lemma_element_occurs(e2, j);
                assert(e2.children.take(j) =~= e.children.take(j));
                assert(e2.children.skip(j + 1) =~= e.children.skip(j + 1));
                assert forall|h: HandleView|
                    #[trigger] occurs(handles(remove_first(n, id)), h) + occurs(handles(s), h)
                        == occurs(handles(n), h) by {
                    assert(occurs(handles(x), h) + occurs(handles(s), h) == occurs(
                        handles(e.children[j]),
                        h,
                    ));
                    assert(occurs(handles(LiveNodeView::Element(e2)), h) == occurs(
                        own_handles(e.id, e.listeners),
                        h,
                    ) + occurs(whole(e.children.take(j)), h) + occurs(handles(x), h) + occurs(
                        whole(e.children.skip(j + 1)),
                        h,
                    ));
                }
            }
        },
    }
}

/// Whether the registry owns exactly the handles of the listeners that are
/// attached in the live tree: none is missing, none is left over, and none is
/// owned more often than it is attached.
pub open spec fn balanced(s: LiveState) -> bool {
    same_handles(s.registry, handles(s.root))
}

/// The number of listeners that are attached in the tree `n`.
pub open spec fn listener_total(n: LiveNodeView) -> nat
    decreases n, 0nat,
{
    match n {
        LiveNodeView::Text { .. } => 0,
        LiveNodeView::Element(e) => e.listeners.len() + forest_total(
            e.children,
            e.children.len() as int,
        ),
    }
}

/// The number of listeners that are attached in the first `k` trees of `c`.
pub open spec fn forest_total(c: Seq<LiveNodeView>, k: int) -> nat
    decreases c, k,
{
    if k <= 0 || k > c.len() {
        0
    } else {
        forest_total(c, k - 1) + listener_total(c[k - 1])
    }
}

/// A tree has one handle for each listener that is attached in it.
pub proof fn lemma_handles_len(n: LiveNodeView)
    ensures
        handles(n).len() == listener_total(n),
    decreases n, 0nat,
{
    match n {
        LiveNodeView::Text { .. } => {},
        LiveNodeView::Element(e) => {
            lemma_forest_len(e.children, e.children.len() as int);
        },
    }
}

/// The first `k` trees of `c` have one handle for each listener attached in them.
pub proof fn lemma_forest_len(c: Seq<LiveNodeView>, k: int)
    ensures
        forest_handles(c, k).len() == forest_total(c, k),
    decreases c, k,
{
    if 0 < k <= c.len() {
        lemma_forest_len(c, k - 1);
        lemma_handles_len(c[k - 1]);
    }
}

/// Lists that hold the same handles equally often have the same length.
pub proof fn lemma_same_handles_len(a: Seq<HandleView>, b: Seq<HandleView>)
    requires
        same_handles(a, b),
    ensures
        a.len() == b.len(),
{
    broadcast use group_multiset_axioms;

    assert forall|h: HandleView| a.to_multiset().count(h) == b.to_multiset().count(h) by {
        assert(occurs(a, h) == occurs(b, h));
    }
    assert(a.to_multiset() =~= b.to_multiset());
    to_multiset_len(a);
    to_multiset_len(b);
}

/// In a balanced state the registry owns as many handles as listeners are
/// attached in the live tree.
pub proof fn lemma_balanced_count(s: LiveState)
    requires
        balanced(s),
    ensures
        s.registry.len() == listener_total(s.root),
{
    lemma_same_handles_len(s.registry, handles(s.root));
    lemma_handles_len(s.root);
}

/// The handles in an element are its own and those in its children.
proof fn lemma_element_parts(e: LiveElementView)
    ensures
        forall|h: HandleView|
            #[trigger] occurs(handles(LiveNodeView::Element(e)), h) == occurs(
                own_handles(e.id, e.listeners),
                h,
            ) + occurs(whole(e.children), h),
{
    lemma_occurs_concat(own_handles(e.id, e.listeners), whole(e.children));
}

/// One patch that is carried out leaves a balanced state balanced.
pub proof fn lemma_step_balanced(s: LiveState, target: u64, kind: PatchKindView)
    requires
        balanced(s),
        step(s, target, kind) is Done,
    ensures
        balanced(step(s, target, kind)->Done_0),
{
    let node = find_first(s.root, target).unwrap();
    let edit = prepared(kind, s.next_id);
    let after = step(s, target, kind)->Done_0;
    let reg = s.registry;
    lemma_find_within(s.root, target);
    assert forall|h: HandleView| occurs(handles(node), h) <= occurs(reg, h) by {
        assert(occurs(handles(node), h) <= occurs(handles(s.root), h));
        assert(occurs(reg, h) == occurs(handles(s.root), h));
    }
    if edit is Remove {
        lemma_remove_first_handles(s.root, target);
        lemma_released(reg, handles(node));
        assert forall|h: HandleView| occurs(after.registry, h) == occurs(handles(after.root), h) by {
            assert(occurs(released(reg, handles(node)), h) + occurs(handles(node), h) == occurs(
                reg,
                h,
            ));
            assert(occurs(handles(remove_first(s.root, target)), h) + occurs(handles(node), h)
                == occurs(handles(s.root), h));
            assert(occurs(reg, h) == occurs(handles(s.root), h));
        }
    } else {
        lemma_edit_first_handles(s.root, target, edit);
        let new_node = edited(node, edit);
        match edit {
            EditView::SetAttributes(a) => {
                let e = node->Element_0;
                let e2 = new_node->Element_0;
                lemma_element_parts(e);
                lemma_element_parts(e2);
                lemma_own_concat(e.id, e.listeners, attached(a));
                lemma_occurs_concat(own_handles(e.id, e.listeners), own_handles(e.id, attached(a)));
                lemma_occurs_concat(reg, own_handles(e.id, attached(a)));
                assert forall|h: HandleView| occurs(after.registry, h) == occurs(
                    handles(after.root),
                    h,
                ) by {
                    assert(occurs(handles(after.root), h) + occurs(handles(node), h) == occurs(
                        handles(s.root),
                        h,
                    ) + occurs(handles(new_node), h));
                    assert(occurs(reg, h) == occurs(handles(s.root), h));
                    assert(occurs(handles(new_node), h) == occurs(handles(node), h) + occurs(
                        own_handles(e.id, attached(a)),
                        h,
                    ));
                }
            },
            EditView::UnsetAttributes(a) => {
                let e = node->Element_0;
                let e2 = new_node->Element_0;
                let gone = own_handles(e.id, pick_listeners(e.listeners, listener_names(a), true));
                lemma_element_parts(e);
                lemma_element_parts(e2);
                lemma_pick_partition(e.id, e.listeners, listener_names(a));
                assert forall|h: HandleView| occurs(gone, h) <= occurs(reg, h) by {
                    assert(occurs(gone, h) <= occurs(own_handles(e.id, e.listeners), h));
                    assert(occurs(own_handles(e.id, e.listeners), h) <= occurs(handles(node), h));
                    assert(occurs(handles(node), h) <= occurs(reg, h));
                }
                lemma_released(reg, gone);
                assert forall|h: HandleView| occurs(after.registry, h) == occurs(
                    handles(after.root),
                    h,
                ) by {
                    assert(occurs(handles(after.root), h) + occurs(handles(node), h) == occurs(
                        handles(s.root),
                        h,
                    ) + occurs(handles(new_node), h));
                    assert(occurs(reg, h) == occurs(handles(s.root), h));
                    assert(occurs(released(reg, gone), h) + occurs(gone, h) == occurs(reg, h));
                    assert(occurs(handles(new_node), h) + occurs(gone, h) == occurs(
                        handles(node),
                        h,
                    ));
                }
            },
            EditView::Replace(new) => {
                lemma_released(reg, handles(node));
                lemma_occurs_concat(released(reg, handles(node)), handles(new));
                assert forall|h: HandleView| occurs(after.registry, h) == occurs(
                    handles(after.root),
                    h,
                ) by {
                    assert(occurs(handles(after.root), h) + occurs(handles(node), h) == occurs(
                        handles(s.root),
                        h,
                    ) + occurs(handles(new_node), h));
                    assert(occurs(reg, h) == occurs(handles(s.root), h));
                    assert(occurs(released(reg, handles(node)), h) + occurs(handles(node), h)
                        == occurs(reg, h));
                }
            },
            EditView::Append(c) => {
                let e = node->Element_0;
                let e2 = new_node->Element_0;
                lemma_element_parts(e);
                lemma_element_parts(e2);
                lemma_forest_concat(e.children, c, c.len() as int);
                lemma_occurs_concat(whole(e.children), whole(c));
                lemma_occurs_concat(reg, whole(c));
                assert forall|h: HandleView| occurs(after.registry, h) == occurs(
                    handles(after.root),
                    h,
                ) by {
                    assert(occurs(handles(after.root), h) + occurs(handles(node), h) == occurs(
                        handles(s.root),
                        h,
                    ) + occurs(handles(new_node), h));
                    assert(occurs(reg, h) == occurs(handles(s.root), h));
                    assert(occurs(handles(new_node), h) == occurs(handles(node), h) + occurs(
                        whole(c),
                        h,
                    ));
                }
            },
            EditView::SetText(t) => {
                assert forall|h: HandleView| occurs(after.registry, h) == occurs(
                    handles(after.root),
                    h,
                ) by {
                    assert(occurs(handles(after.root), h) + occurs(handles(node), h) == occurs(
                        handles(s.root),
                        h,
                    ) + occurs(handles(new_node), h));
                    assert(occurs(reg, h) == occurs(handles(s.root), h));
                    assert(handles(new_node) == handles(node));
                }
            },
            EditView::Remove => {},
        }
    }
}

/// Patches leave a balanced state balanced, whether they all succeed or one fails.
pub proof fn lemma_run_balanced(s: LiveState, targets: Seq<u64>, patches: Seq<PatchView>, k: int)
    requires
        balanced(s),
    ensures
        balanced(run(s, targets, patches, k).state),
    decreases patches.len() - k,
{
    if 0 <= k < patches.len() && k < targets.len() {
        match step(s, targets[k], patches[k].kind) {
            StepView::Done(next) => {
                lemma_step_balanced(s, targets[k], patches[k].kind);
                lemma_run_balanced(next, targets, patches, k + 1);
            },
            StepView::Failed(_) => {},
        }
    }
}

/// After any list of patches the registry of a balanced state still owns
/// exactly the handles of the listeners that are attached in the live tree,
/// and so as many handles as listeners are attached.
pub proof fn lemma_applied_balanced(s: LiveState, patches: Seq<PatchView>)
    requires
        balanced(s),
    ensures
        balanced(applied(s, patches).state),
        applied(s, patches).state.registry.len() == listener_total(applied(s, patches).state.root),
{
    if all_resolve(s.root, patches) {
        lemma_run_balanced(s, targets_of(s.root, patches), patches, 0);
    }
    lemma_balanced_count(applied(s, patches).state);
}

/// The number of elements of the tree `n` that bear a listener.
pub open spec fn bearer_total(n: LiveNodeView) -> nat
    decreases n, 0nat,
{
    match n {
        LiveNodeView::Text { .. } => 0,
        LiveNodeView::Element(e) => (if e.listeners.len() > 0 {
            1nat
        } else {
            0nat
        }) + forest_bearers(e.children, e.children.len() as int),
    }
}

/// The number of elements of the first `k` trees of `c` that bear a listener.
pub open spec fn forest_bearers(c: Seq<LiveNodeView>, k: int) -> nat
    decreases c, k,
{
    if k <= 0 || k > c.len() {
        0
    } else {
        forest_bearers(c, k - 1) + bearer_total(c[k - 1])
    }
}

/// Whether no element of the tree `n` bears more than one listener.
pub open spec fn single_listeners(n: LiveNodeView) -> bool
    decreases n, 0nat,
{
    match n {
        LiveNodeView::Text { .. } => true,
        LiveNodeView::Element(e) => e.listeners.len() <= 1 && forest_single(
            e.children,
            e.children.len() as int,
        ),
    }
}

/// Whether no element of the first `k` trees of `c` bears more than one listener.
pub open spec fn forest_single(c: Seq<LiveNodeView>, k: int) -> bool
    decreases c, k,
{
    k <= 0 || k > c.len() || (forest_single(c, k - 1) && single_listeners(c[k - 1]))
}

/// Where no element bears more than one listener, as many listeners are
/// attached as elements bear one.
pub proof fn lemma_single_listeners(n: LiveNodeView)
    requires
        single_listeners(n),
    ensures
        listener_total(n) == bearer_total(n),
    decreases n, 0nat,
{
    match n {
        LiveNodeView::Text { .. } => {},
        LiveNodeView::Element(e) => {
            lemma_forest_single(e.children, e.children.len() as int);
        },
    }
}

/// The same for the first `k` trees of a list.
pub proof fn lemma_forest_single(c: Seq<LiveNodeView>, k: int)
    requires
        forest_single(c, k),
    ensures
        forest_total(c, k) == forest_bearers(c, k),
    decreases c, k,
{
    if 0 < k <= c.len() {
        lemma_forest_single(c, k - 1);
        lemma_single_listeners(c[k - 1]);
    }
}

/// In a balanced state in which no element bears more than one listener, the
/// registry owns as many handles as elements of the live tree bear a listener.
pub proof fn lemma_balanced_bearers(s: LiveState)
    requires
        balanced(s),
        single_listeners(s.root),
    ensures
        s.registry.len() == bearer_total(s.root),
{
    lemma_balanced_count(s);
    lemma_single_listeners(s.root);
}

} // verus!

use vstd::prelude::*;
use crate::dom::live::{children_of, id_of, LiveElementView, LiveNodeView};
use crate::dom::model::{
    all_resolve, applied, contains_id, counterpart, counterpart_from, edit_first, edited,
    find_first, holder, prepared, remove_first, run, step, targets_of, EditView, LiveState,
    StepView,
};
use crate::proofs::balance::lemma_find_holder;
use crate::proofs::identity::{lemma_contains_child, lemma_contains_element};
use crate::vdom::patch::{PatchKindView, PatchView};

verus! {

/// Whether the focus is on a node of the live tree, or on none.
pub open spec fn focus_live(s: LiveState) -> bool {
    match s.focus {
        Some(f) => contains_id(s.root, f),
        None => true,
    }
}

/// The counterpart of a node is a node of the new tree.
pub proof fn lemma_counterpart_in(old: LiveNodeView, new: LiveNodeView, f: u64)
    requires
        counterpart(old, new, f).is_some(),
    ensures
        contains_id(new, counterpart(old, new, f).unwrap()),
    decreases old, 0nat,
{
    if id_of(old) != f {
        match old {
            LiveNodeView::Element(a) => {
                lemma_counterpart_from_in(a.children, children_of(new), f, 0);
                let i = choose|i: int|
                    0 <= i < children_of(new).len() && contains_id(
                        #[trigger] children_of(new)[i],
                        counterpart(old, new, f).unwrap(),
                    );
                match new {
                    LiveNodeView::Element(b) => {
                        lemma_contains_child(b, i, counterpart(old, new, f).unwrap());
                    },
                    LiveNodeView::Text { .. } => {},
                }
            },
            LiveNodeView::Text { .. } => {},
        }
    }
}

/// The counterpart of a node under a list of trees is in one of the new trees.
proof fn lemma_counterpart_from_in(
    old: Seq<LiveNodeView>,
    new: Seq<LiveNodeView>,
    f: u64,
    i: int,
)
    requires
        0 <= i,
        counterpart_from(old, new, f, i).is_some(),
    ensures
        exists|k: int|
            0 <= k < new.len() && contains_id(
                #[trigger] new[k],
                counterpart_from(old, new, f, i).unwrap(),
            ),
    decreases old, old.len() - i,
{
    if i < old.len() {
        if contains_id(old[i], f) {
            lemma_counterpart_in(old[i], new[i], f);
            assert(contains_id(new[i], counterpart_from(old, new, f, i).unwrap()));
        } else {
            lemma_counterpart_from_in(old, new, f, i + 1);
        }
    }
}

/// What the edited node holds, the tree holds after the edit.
pub proof fn lemma_contains_edited(n: LiveNodeView, t: u64, edit: EditView, x: u64)
    requires
        find_first(n, t).is_some(),
        contains_id(edited(find_first(n, t).unwrap(), edit), x),
    ensures
        contains_id(edit_first(n, t, edit), x),
    decreases n,
{
    if id_of(n) != t {
        match n {
            LiveNodeView::Text { .. } => {},
            LiveNodeView::Element(e) => {
                lemma_find_holder(e.children, t, 0);
                let j = holder(e.children, t, 0);
                lemma_contains_edited(e.children[j], t, edit, x);
                let e2 = LiveElementView {
                    children: e.children.update(j, edit_first(e.children[j], t, edit)),
                    ..e
                };
                lemma_contains_child(e2, j, x);
            },
        }
    }
}

/// An edit in place takes no node out of the edited node.
pub proof fn lemma_edited_keeps(node: LiveNodeView, edit: EditView, f: u64)
    requires
        contains_id(node, f),
        !(edit is Replace),
    ensures
        contains_id(edited(node, edit), f),
{
    match node {
        LiveNodeView::Element(e) => {
            let after = edited(node, edit);
            lemma_contains_element(e, f);
            if e.id != f {
                let i = choose|i: int| 0 <= i < e.children.len() && contains_id(#[trigger] e.children[i], f);
                match after {
                    LiveNodeView::Element(e2) => {
                        assert(e2.children[i] == e.children[i]);
                        lemma_contains_child(e2, i, f);
                    },
                    LiveNodeView::Text { .. } => {},
                }
            }
        },
        LiveNodeView::Text { .. } => {},
    }
}

/// A node outside the edited or removed node stays in the tree.
pub proof fn lemma_contains_outside(n: LiveNodeView, t: u64, edit: EditView, f: u64)
    requires
        find_first(n, t).is_some(),
        contains_id(n, f),
        !contains_id(find_first(n, t).unwrap(), f),
    ensures
        contains_id(edit_first(n, t, edit), f),
        id_of(n) != t ==> contains_id(remove_first(n, t), f),
    decreases n,
{
    match n {
        LiveNodeView::Text { .. } => {},
        LiveNodeView::Element(e) => {
            lemma_find_holder(e.children, t, 0);
            let j = holder(e.children, t, 0);
            lemma_contains_element(e, f);
            let edited_child = edit_first(e.children[j], t, edit);
            let e2 = LiveElementView { children: e.children.update(j, edited_child), ..e };
            lemma_contains_element(e2, f);
            if e.id != f {
                let k = choose|k: int| 0 <= k < e.children.len() && contains_id(#[trigger] e.children[k], f);
                if k != j {
                    assert(e2.children[k] == e.children[k]);
                    if id_of(e.children[j]) == t {
                        let e3 = LiveElementView { children: e.children.remove(j), ..e };
                        if k < j {
                            assert(e3.children[k] == e.children[k]);
                            lemma_contains_child(e3, k, f);
                        } else {
                            assert(e3.children[k - 1] == e.children[k]);
                            lemma_contains_child(e3, k - 1, f);
                        }
                    } else {
                        let e4 = LiveElementView {
                            children: e.children.update(j, remove_first(e.children[j], t)),
                            ..e
                        };
                        assert(e4.children[k] == e.children[k]);
                        lemma_contains_child(e4, k, f);
                    }
                } else {
                    lemma_contains_outside(e.children[j], t, edit, f);
                    assert(e2.children[j] == edited_child);
                    if id_of(e.children[j]) != t {
                        let e4 = LiveElementView {
                            children: e.children.update(j, remove_first(e.children[j], t)),
                            ..e
                        };
                        lemma_contains_child(e4, j, f);
                    }
                }
            } else {
                if id_of(e.children[j]) == t {
                    let e3 = LiveElementView { children: e.children.remove(j), ..e };
                    lemma_contains_element(e3, f);
                } else {
                    let e4 = LiveElementView {
                        children: e.children.update(j, remove_first(e.children[j], t)),
                        ..e
                    };
                    lemma_contains_element(e4, f);
                }
            }
        },
    }
}

/// One patch that is carried out leaves the focus on a node of the live tree,
/// or on none.
pub proof fn lemma_step_focus(s: LiveState, target: u64, kind: PatchKindView)
    requires
        focus_live(s),
        step(s, target, kind) is Done,
    ensures
        focus_live(step(s, target, kind)->Done_0),
{
    let node = find_first(s.root, target).unwrap();
    let edit = prepared(kind, s.next_id);
    let after = step(s, target, kind)->Done_0;
    match s.focus {
        Some(f) => {
            if contains_id(node, f) {
                match edit {
                    EditView::Replace(new) => {
                        if counterpart(node, new, f).is_some() {
                            lemma_counterpart_in(node, new, f);
                            lemma_contains_edited(
                                s.root,
                                target,
                                edit,
                                counterpart(node, new, f).unwrap(),
                            );
                        }
                    },
                    EditView::Remove => {},
                    _ => {
                        lemma_edited_keeps(node, edit, f);
                        lemma_contains_edited(s.root, target, edit, f);
                    },
                }
            } else {
                lemma_contains_outside(s.root, target, edit, f);
            }
        },
        None => {},
    }
}

/// Patches leave the focus on a node of the live tree, or on none, whether
/// they all succeed or one fails.
pub proof fn lemma_run_focus(s: LiveState, targets: Seq<u64>, patches: Seq<PatchView>, k: int)
    requires
        focus_live(s),
    ensures
        focus_live(run(s, targets, patches, k).state),
    decreases patches.len() - k,
{
    if 0 <= k < patches.len() && k < targets.len() {
        match step(s, targets[k], patches[k].kind) {
            StepView::Done(next) => {
                lemma_step_focus(s, targets[k], patches[k].kind);
                lemma_run_focus(next, targets, patches, k + 1);
            },
            StepView::Failed(_) => {},
        }
    }
}

/// After any list of patches the focus is on a node of the live tree, or on
/// none, where it was so before: it never stays on a node that is gone.
pub proof fn lemma_applied_focus(s: LiveState, patches: Seq<PatchView>)
    requires
        focus_live(s),
    ensures
        focus_live(applied(s, patches).state),
{
    if all_resolve(s.root, patches) {
        lemma_run_focus(s, targets_of(s.root, patches), patches, 0);
    }
}

} // verus!

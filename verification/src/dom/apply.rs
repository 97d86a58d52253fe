use vstd::prelude::*;
use crate::dom::edit::{kind_fits, pick, prepare, Edit, Mutation};
use crate::dom::error::PatchError;
use crate::dom::live::{lemma_live_element_view, LiveNode};
use crate::dom::locate::{counterpart_of, find, holds, resolve_path};
use crate::dom::materialize::collect_listeners;
use crate::dom::model::{
    all_resolve, applied, demand, prepared, resolve, run, step, targets_of, LiveState, Outcome,
    StepView,
};
use crate::dom::registry::ActiveClosure;
use crate::dom::tree_edit::{edit_tree, remove_tree};
use crate::proofs::balance::{balanced, lemma_applied_balanced};
use crate::proofs::focus::{focus_live, lemma_applied_focus};
use crate::vdom::patch::{patches_view, Patch, PatchKind, PatchView};

verus! {

/// The state that a live tree, its registry, its focus and its next identity make.
pub open spec fn state_of(
    root: LiveNode,
    registry: ActiveClosure,
    focus: Option<u64>,
    next_id: u64,
) -> LiveState {
    LiveState { root: root@, registry: registry@, focus, next_id }
}

/// The identities that the first `k` patches take.
pub open spec fn demand_first(patches: Seq<PatchView>, k: int) -> nat
    decreases k,
{
    if k <= 0 || k > patches.len() {
        0
    } else {
        demand_first(patches, k - 1) + demand(patches[k - 1].kind)
    }
}

/// Carries out one patch on the node with identity `target`.
///
/// Where it fails, nothing has changed.
pub fn apply_patch(
    root: &mut LiveNode,
    registry: &mut ActiveClosure,
    focus: &mut Option<u64>,
    next_id: &mut u64,
    target: u64,
    patch: &Patch,
) -> (r: Result<Mutation, PatchError>)
    ensures
        match r {
            Ok(m) => step(
                state_of(*old(root), *old(registry), *old(focus), *old(next_id)),
                target,
                patch@.kind,
            ) == StepView::Done(state_of(*final(root), *final(registry), *final(focus), *final(next_id)))
                && m.target == target && m.edit@ == prepared(patch@.kind, *old(next_id)),
            Err(e) => step(
                state_of(*old(root), *old(registry), *old(focus), *old(next_id)),
                target,
                patch@.kind,
            ) == StepView::Failed(e) && *final(root) == *old(root) && *final(registry) == *old(
                registry,
            ) && *final(focus) == *old(focus) && *final(next_id) == *old(next_id),
        },
{
    let node = match find(root, target) {
        Some(s) => s,
        None => {
            return Err(PatchError::PathResolutionFailure);
        },
    };
    if !kind_fits(node, &patch.kind) {
        return Err(PatchError::BackendMutationFailure);
    }
    let removal = match &patch.kind {
        PatchKind::RemoveNode => true,
        _ => false,
    };
    if removal && root.id() == target {
        return Err(PatchError::BackendMutationFailure);
    }
    let (edit, after) = match prepare(&patch.kind, *next_id) {
        Some(x) => x,
        None => {
            return Err(PatchError::BackendMutationFailure);
        },
    };
    match &edit {
        Edit::SetAttributes(a) => {
            let added = collect_listeners(a);
            match node {
                LiveNode::Element(e) => {
                    proof {
                        lemma_live_element_view(*e);
                    }
                    registry.register_all(e.id, &added);
                },
                LiveNode::Text(_) => {},
            }
        },
        Edit::UnsetAttributes(a) => {
            match node {
                LiveNode::Element(e) => {
                    proof {
                        lemma_live_element_view(*e);
                    }
                    let gone = pick(&e.listeners, a, true);
                    registry.release_all(e.id, &gone);
                },
                LiveNode::Text(_) => {},
            }
        },
        Edit::Replace(new) => {
            registry.release_tree(node);
            registry.register_tree(new);
        },
        Edit::Append(c) => {
            registry.register_forest(c);
        },
        Edit::Remove => {
            registry.release_tree(node);
        },
        Edit::SetText(_) => {},
    }
    match *focus {
        Some(f) => {
            if holds(node, f) {
                match &edit {
                    Edit::Replace(new) => {
                        *focus = counterpart_of(node, new, f);
                    },
                    Edit::Remove => {
                        *focus = None;
                    },
                    _ => {},
                }
            }
        },
        None => {},
    }
    if removal {
        remove_tree(root, target);
    } else {
        edit_tree(root, target, &edit);
    }
    *next_id = after;
    Ok(Mutation { target, edit })
}

/// The identities of the nodes that the patches address in the tree `root`;
/// nothing where one of them addresses no node.
pub fn resolve_all(root: &LiveNode, patches: &Vec<Patch>) -> (r: Option<Vec<u64>>)
    ensures
        match r {
            Some(t) => all_resolve(root@, patches_view(patches@)) && t@ == targets_of(
                root@,
                patches_view(patches@),
            ),
            None => !all_resolve(root@, patches_view(patches@)),
        },
{
    let ghost v = patches_view(patches@);
    let mut out: Vec<u64> = Vec::new();
    let mut k: usize = 0;
    while k < patches.len()
        invariant
            k <= patches.len(),
            v == patches_view(patches@),
            out.len() == k,
            forall|j: int| 0 <= j < k ==> resolve(root@, (#[trigger] v[j]).path) == Some(out@[j]),
        decreases patches.len() - k,
    {
        match resolve_path(root, &patches[k].path) {
            Some(id) => {
                out.push(id);
            },
            None => {
                assert(resolve(root@, v[k as int].path).is_none());
                return None;
            },
        }
        k += 1;
    }
    assert(out@ =~= targets_of(root@, v));
    Some(out)
}

/// Carries out a list of patches on a live tree.
///
/// Each patch is first resolved to the node that its path addresses in the tree
/// as it stands. Where one addresses no node the call fails and nothing has
/// changed. The patches are then carried out in order, each on the node that
/// it was resolved to. The first that fails ends the call: those before it
/// have been carried out, it and those after it have not.
///
/// On success the result holds, for each patch, the edit that was made and the
/// identity of the node that it was made to. Whether the call succeeds or
/// fails, a registry that owned exactly the handles of the listeners attached
/// in the tree still does so afterwards, and a focus that was on a node of the
/// tree is on a node of the tree or on none.
pub fn patch(
    root: &mut LiveNode,
    registry: &mut ActiveClosure,
    focus: &mut Option<u64>,
    next_id: &mut u64,
    patches: &Vec<Patch>,
) -> (r: Result<Vec<Mutation>, PatchError>)
    ensures
        applied(
            state_of(*old(root), *old(registry), *old(focus), *old(next_id)),
            patches_view(patches@),
        ).state == state_of(*final(root), *final(registry), *final(focus), *final(next_id)),
        balanced(state_of(*old(root), *old(registry), *old(focus), *old(next_id))) ==> balanced(
            state_of(*final(root), *final(registry), *final(focus), *final(next_id)),
        ),
        focus_live(state_of(*old(root), *old(registry), *old(focus), *old(next_id)))
            ==> focus_live(state_of(*final(root), *final(registry), *final(focus), *final(next_id))),
        match r {
            Ok(log) => {
                &&& applied(
                    state_of(*old(root), *old(registry), *old(focus), *old(next_id)),
                    patches_view(patches@),
                ).error.is_none()
                &&& log.len() == patches.len()
                &&& forall|k: int|
                    0 <= k < log.len() ==> (#[trigger] log[k]).target == targets_of(
                        old(root)@,
                        patches_view(patches@),
                    )[k] && log[k].edit@ == prepared(
                        patches[k]@.kind,
                        (*old(next_id) + demand_first(patches_view(patches@), k)) as u64,
                    )
            },
            Err(e) => applied(
                state_of(*old(root), *old(registry), *old(focus), *old(next_id)),
                patches_view(patches@),
            ).error == Some(e),
        },
{
    let ghost v = patches_view(patches@);
    let ghost start = state_of(*root, *registry, *focus, *next_id);
    proof {
        if balanced(start) {
            lemma_applied_balanced(start, v);
        }
        if focus_live(start) {
            lemma_applied_focus(start, v);
        }
    }
    let targets = match resolve_all(root, patches) {
        Some(t) => t,
        None => {
            return Err(PatchError::PathResolutionFailure);
        },
    };
    let mut log: Vec<Mutation> = Vec::new();
    let mut k: usize = 0;
    while k < patches.len()
        invariant
            k <= patches.len(),
            v == patches_view(patches@),
            targets.len() == patches.len(),
            targets@ == targets_of(old(root)@, v),
            all_resolve(old(root)@, v),
            balanced(start) ==> balanced(applied(start, v).state),
            focus_live(start) ==> focus_live(applied(start, v).state),
            start == state_of(*old(root), *old(registry), *old(focus), *old(next_id)),
            run(start, targets@, v, 0) == run(
                state_of(*root, *registry, *focus, *next_id),
                targets@,
                v,
                k as int,
            ),
            log.len() == k,
            *next_id == *old(next_id) + demand_first(v, k as int),
            forall|j: int|
                0 <= j < k ==> (#[trigger] log[j]).target == targets@[j] && log[j].edit@
                    == prepared(v[j].kind, (*old(next_id) + demand_first(v, j)) as u64),
        decreases patches.len() - k,
    {
        let ghost cur = state_of(*root, *registry, *focus, *next_id);
        assert(v[k as int] == patches@[k as int]@);
        match apply_patch(root, registry, focus, next_id, targets[k], &patches[k]) {
            Ok(m) => {
                assert(run(cur, targets@, v, k as int) == run(
                    state_of(*root, *registry, *focus, *next_id),
                    targets@,
                    v,
                    k as int + 1,
                ));
                log.push(m);
            },
            Err(e) => {
                assert(run(cur, targets@, v, k as int) == (Outcome { state: cur, error: Some(e) }));
                return Err(e);
            },
        }
        k += 1;
    }
    Ok(log)
}

} // verus!

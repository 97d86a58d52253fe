use vstd::prelude::*;
use crate::diff::engine::diff;
use crate::diff::model::diff_trees;
use crate::dom::apply::{demand_first, patch, state_of};
use crate::dom::edit::Mutation;
use crate::dom::error::PatchError;
use crate::dom::live::LiveNode;
use crate::dom::materialize::materialize;
use crate::dom::model::{
    applied, count, handles, materialized, prepared, targets_of, HandleView, LiveState,
};
use crate::dom::registry::ActiveClosure;
use crate::proofs::agree::agrees;
use crate::proofs::balance::{balanced, lemma_balanced_count, listener_total};
use crate::proofs::converge::{convergent, lemma_mount_converges, lemma_update_converges};
use crate::proofs::focus::focus_live;
use crate::proofs::identity::{below, unique};
use crate::proofs::jobs::demand_total;
use crate::vdom::node::Node;
use crate::vdom::patch::{patches_view, Patch};

verus! {

/// Keeps a live tree up to date with the virtual tree that it stands for.
pub struct DomUpdater {
    /// The virtual tree that the live tree stands for.
    pub current_vdom: Node,
    /// The live tree: the place to mount at until the virtual tree is mounted,
    /// the mounted tree from then on.
    pub root_node: LiveNode,
    /// The handles of the listeners that are attached in the live tree.
    pub active_closures: ActiveClosure,
    /// The identity of the node that has the focus.
    pub focused_node: Option<u64>,
    /// The next identity to hand out to a new live node.
    pub next_id: u64,
}

impl DomUpdater {
    /// The live tree with what belongs to it.
    pub open spec fn state(&self) -> LiveState {
        state_of(self.root_node, self.active_closures, self.focused_node, self.next_id)
    }

    /// Whether the live tree shows the current virtual tree, no two of its
    /// nodes have the same identity, every identity in it has been handed out
    /// already, the registry owns exactly the handles of the listeners that
    /// are attached in it, and the focus is on one of its nodes or on none.
    pub open spec fn faithful(&self) -> bool {
        &&& agrees(self.root_node@, self.current_vdom@)
        &&& unique(self.root_node@)
        &&& below(self.root_node@, self.next_id as int)
        &&& balanced(self.state())
        &&& focus_live(self.state())
    }

    /// An updater for `current_vdom` that has not mounted it yet: its live tree is
    /// the place to mount at, its registry is empty, nothing has the focus, and
    /// identities are handed out from 0 on.
    pub fn new(current_vdom: Node, mount: &LiveNode) -> (r: DomUpdater)
        ensures
            r.current_vdom == current_vdom,
            r.root_node@ == mount@,
            r.active_closures@ == Seq::<HandleView>::empty(),
            r.focused_node.is_none(),
            r.next_id == 0,
    {
        DomUpdater {
            current_vdom,
            root_node: mount.clone(),
            active_closures: ActiveClosure::new(),
            focused_node: None,
            next_id: 0,
        }
    }

    /// The number of listener handles that the registry owns, whatever node
    /// each is attached to.
    pub fn active_closure_len(&self) -> (r: usize)
        ensures
            r == self.active_closures@.len(),
            balanced(self.state()) ==> r == listener_total(self.root_node@),
    {
        proof {
            if balanced(self.state()) {
                lemma_balanced_count(self.state());
            }
        }
        self.active_closures.len()
    }

    /// Mounts the virtual tree: the live tree becomes the one that stands for
    /// it, with fresh identities, the registry owns exactly the handles of its
    /// listeners, and nothing has the focus. Whether the mounted tree is put
    /// into the place to mount at or in its stead is the host's matter.
    ///
    /// It fails, and changes nothing, where the identities do not suffice.
    pub fn mount(&mut self, replace: bool) -> (r: Result<(), PatchError>)
        ensures
            final(self).current_vdom == old(self).current_vdom,
            match r {
                Ok(_) => {
                    &&& old(self).next_id + count(old(self).current_vdom@) <= u64::MAX
                    &&& final(self).root_node@ == materialized(
                        old(self).current_vdom@,
                        old(self).next_id as int,
                    )
                    &&& final(self).active_closures@ == handles(final(self).root_node@)
                    &&& final(self).faithful()
                    &&& final(self).focused_node.is_none()
                    &&& final(self).next_id == old(self).next_id + count(old(self).current_vdom@)
                },
                Err(e) => {
                    &&& e == PatchError::BackendMutationFailure
                    &&& old(self).next_id + count(old(self).current_vdom@) > u64::MAX
                    &&& final(self).root_node == old(self).root_node
                    &&& final(self).active_closures == old(self).active_closures
                    &&& final(self).focused_node == old(self).focused_node
                    &&& final(self).next_id == old(self).next_id
                },
            },
    {
        let _ = replace;
        match materialize(&self.current_vdom, self.next_id) {
            None => Err(PatchError::BackendMutationFailure),
            Some((live, after)) => {
                proof {
                    lemma_mount_converges(self.current_vdom@, self.next_id);
                }
                let mut registry = ActiveClosure::new();
                registry.register_tree(&live);
                assert(registry@ =~= handles(live@));
                self.root_node = live;
                self.active_closures = registry;
                self.focused_node = None;
                self.next_id = after;
                Ok(())
            },
        }
    }

    /// Mounts the virtual tree into the place to mount at.
    pub fn append_to_mount(&mut self) -> (r: Result<(), PatchError>)
        ensures
            final(self).current_vdom == old(self).current_vdom,
            match r {
                Ok(_) => {
                    &&& old(self).next_id + count(old(self).current_vdom@) <= u64::MAX
                    &&& final(self).root_node@ == materialized(
                        old(self).current_vdom@,
                        old(self).next_id as int,
                    )
                    &&& final(self).active_closures@ == handles(final(self).root_node@)
                    &&& final(self).faithful()
                    &&& final(self).focused_node.is_none()
                    &&& final(self).next_id == old(self).next_id + count(old(self).current_vdom@)
                },
                Err(e) => {
                    &&& e == PatchError::BackendMutationFailure
                    &&& old(self).next_id + count(old(self).current_vdom@) > u64::MAX
                    &&& final(self).root_node == old(self).root_node
                    &&& final(self).active_closures == old(self).active_closures
                    &&& final(self).focused_node == old(self).focused_node
                    &&& final(self).next_id == old(self).next_id
                },
            },
    {
        self.mount(false)
    }

    /// Mounts the virtual tree in the stead of the place to mount at.
    pub fn replace_mount(&mut self) -> (r: Result<(), PatchError>)
        ensures
            final(self).current_vdom == old(self).current_vdom,
            match r {
                Ok(_) => {
                    &&& old(self).next_id + count(old(self).current_vdom@) <= u64::MAX
                    &&& final(self).root_node@ == materialized(
                        old(self).current_vdom@,
                        old(self).next_id as int,
                    )
                    &&& final(self).active_closures@ == handles(final(self).root_node@)
                    &&& final(self).faithful()
                    &&& final(self).focused_node.is_none()
                    &&& final(self).next_id == old(self).next_id + count(old(self).current_vdom@)
                },
                Err(e) => {
                    &&& e == PatchError::BackendMutationFailure
                    &&& old(self).next_id + count(old(self).current_vdom@) > u64::MAX
                    &&& final(self).root_node == old(self).root_node
                    &&& final(self).active_closures == old(self).active_closures
                    &&& final(self).focused_node == old(self).focused_node
                    &&& final(self).next_id == old(self).next_id
                },
            },
    {
        self.mount(true)
    }

    /// An updater that has mounted `current_vdom` into the place to mount at.
    pub fn new_append_to_mount(current_vdom: Node, mount: &LiveNode) -> (r: Result<
        DomUpdater,
        PatchError,
    >)
        ensures
            match r {
                Ok(u) => {
                    &&& count(current_vdom@) <= u64::MAX
                    &&& u.current_vdom == current_vdom
                    &&& u.root_node@ == materialized(current_vdom@, 0)
                    &&& u.active_closures@ == handles(u.root_node@)
                    &&& u.faithful()
                    &&& u.focused_node.is_none()
                    &&& u.next_id == count(current_vdom@)
                },
                Err(e) => e == PatchError::BackendMutationFailure && count(current_vdom@)
                    > u64::MAX,
            },
    {
        let mut dom_updater = DomUpdater::new(current_vdom, mount);
        match dom_updater.append_to_mount() {
            Ok(_) => Ok(dom_updater),
            Err(e) => Err(e),
        }
    }

    /// An updater that has mounted `current_vdom` in the stead of the place to
    /// mount at.
    pub fn new_replace_mount(current_vdom: Node, mount: LiveNode) -> (r: Result<
        DomUpdater,
        PatchError,
    >)
        ensures
            match r {
                Ok(u) => {
                    &&& count(current_vdom@) <= u64::MAX
                    &&& u.current_vdom == current_vdom
                    &&& u.root_node@ == materialized(current_vdom@, 0)
                    &&& u.active_closures@ == handles(u.root_node@)
                    &&& u.faithful()
                    &&& u.focused_node.is_none()
                    &&& u.next_id == count(current_vdom@)
                },
                Err(e) => e == PatchError::BackendMutationFailure && count(current_vdom@)
                    > u64::MAX,
            },
    {
        let mut dom_updater = DomUpdater::new(current_vdom, &mount);
        match dom_updater.replace_mount() {
            Ok(_) => Ok(dom_updater),
            Err(e) => Err(e),
        }
    }

    /// Brings the live tree up to date with `new_vdom`: the patches that turn the
    /// current virtual tree into `new_vdom` are carried out on the live tree,
    /// and `new_vdom` becomes the current virtual tree.
    ///
    /// On success the result holds one edit for each patch, in order. Where a
    /// patch fails, those before it have been carried out and the current
    /// virtual tree stays.
    ///
    /// A faithful updater succeeds and stays faithful where the comparison is
    /// convergent and the identities suffice for the new nodes: the live tree
    /// then shows `new_vdom`.
    pub fn update_dom(&mut self, new_vdom: Node) -> (r: Result<Vec<Mutation>, PatchError>)
        ensures
            applied(old(self).state(), diff_trees(old(self).current_vdom@, new_vdom@)).state
                == final(self).state(),
            balanced(old(self).state()) ==> balanced(final(self).state()),
            focus_live(old(self).state()) ==> focus_live(final(self).state()),
            old(self).faithful() && convergent(old(self).current_vdom@, new_vdom@) && old(
                self,
            ).next_id + demand_total(diff_trees(old(self).current_vdom@, new_vdom@)) <= u64::MAX
                ==> r.is_ok() && final(self).faithful(),
            match r {
                Ok(log) => {
                    &&& applied(
                        old(self).state(),
                        diff_trees(old(self).current_vdom@, new_vdom@),
                    ).error.is_none()
                    &&& final(self).current_vdom == new_vdom
                    &&& log.len() == diff_trees(old(self).current_vdom@, new_vdom@).len()
                    &&& forall|k: int|
                        0 <= k < log.len() ==> (#[trigger] log[k]).target == targets_of(
                            old(self).root_node@,
                            diff_trees(old(self).current_vdom@, new_vdom@),
                        )[k] && log[k].edit@ == prepared(
                            diff_trees(old(self).current_vdom@, new_vdom@)[k].kind,
                            (old(self).next_id + demand_first(
                                diff_trees(old(self).current_vdom@, new_vdom@),
                                k,
                            )) as u64,
                        )
                },
                Err(e) => applied(
                    old(self).state(),
                    diff_trees(old(self).current_vdom@, new_vdom@),
                ).error == Some(e) && final(self).current_vdom == old(self).current_vdom,
            },
    {
        let patches = diff(&self.current_vdom, &new_vdom);
        proof {
            if self.faithful() && convergent(self.current_vdom@, new_vdom@) && self.next_id
                + demand_total(diff_trees(self.current_vdom@, new_vdom@)) <= u64::MAX {
                lemma_update_converges(self.state(), self.current_vdom@, new_vdom@);
            }
        }
        let r = patch(
            &mut self.root_node,
            &mut self.active_closures,
            &mut self.focused_node,
            &mut self.next_id,
            &patches,
        );
        match r {
            Ok(log) => {
                self.current_vdom = new_vdom;
                Ok(log)
            },
            Err(e) => Err(e),
        }
    }

    /// Carries the patches out on the live tree as they are, whatever the
    /// current virtual tree is; the current virtual tree stays.
    pub fn patch_dom(&mut self, patches: Vec<Patch>) -> (r: Result<Vec<Mutation>, PatchError>)
        ensures
            applied(old(self).state(), patches_view(patches@)).state == final(self).state(),
            balanced(old(self).state()) ==> balanced(final(self).state()),
            focus_live(old(self).state()) ==> focus_live(final(self).state()),
            final(self).current_vdom == old(self).current_vdom,
            match r {
                Ok(log) => {
                    &&& applied(old(self).state(), patches_view(patches@)).error.is_none()
                    &&& log.len() == patches.len()
                    &&& forall|k: int|
                        0 <= k < log.len() ==> (#[trigger] log[k]).target == targets_of(
                            old(self).root_node@,
                            patches_view(patches@),
                        )[k] && log[k].edit@ == prepared(
                            patches[k]@.kind,
                            (old(self).next_id + demand_first(patches_view(patches@), k)) as u64,
                        )
                },
                Err(e) => applied(old(self).state(), patches_view(patches@)).error == Some(e),
            },
    {
        patch(
            &mut self.root_node,
            &mut self.active_closures,
            &mut self.focused_node,
            &mut self.next_id,
            &patches,
        )
    }

    /// A copy of the live tree.
    pub fn root_node(&self) -> (r: LiveNode)
        ensures
            r@ == self.root_node@,
    {
        self.root_node.clone()
    }
}

} // verus!

use vstd::prelude::*;
use crate::dom::error::PatchError;
use crate::dom::live::{
    lemma_live_element_view, listeners_view, lives_view, Listener, LiveElement, LiveNode,
    LiveNodeView,
};
use crate::dom::model::{
    forest_handles, handle_index, handles, own_handles, released, without, HandleView,
};
use crate::vdom::value::Callback;

verus! {

/// A listener handle: an attached listener and the identity of its node.
#[derive(Debug, PartialEq, Eq)]
pub struct Handle {
    pub node: u64,
    pub event: String,
    pub callback: Callback,
}

impl View for Handle {
    type V = HandleView;

    open spec fn view(&self) -> HandleView {
        HandleView { node: self.node, event: self.event@, callback: self.callback.id }
    }
}

/// The views of a sequence of handles, in order.
pub open spec fn handles_view(s: Seq<Handle>) -> Seq<HandleView> {
    Seq::new(s.len(), |i: int| s[i]@)
}

/// The registry of the listeners that are attached to a live tree.
///
/// It owns one handle for each attached listener, so that the listener stays
/// alive as long as its node does.
#[derive(Debug, PartialEq, Eq)]
pub struct ActiveClosure {
    pub handles: Vec<Handle>,
}

impl View for ActiveClosure {
    type V = Seq<HandleView>;

    open spec fn view(&self) -> Seq<HandleView> {
        handles_view(self.handles@)
    }
}

/// Releasing one list of handles after another is releasing both in a row.
pub proof fn lemma_released_concat(reg: Seq<HandleView>, a: Seq<HandleView>, b: Seq<HandleView>)
    ensures
        released(reg, a + b) == released(released(reg, a), b),
    decreases b.len(),
{
    if b.len() == 0 {
        assert(a + b =~= a);
    } else {
        lemma_released_concat(reg, a, b.drop_last());
        assert((a + b).drop_last() =~= a + b.drop_last());
        assert((a + b).last() == b.last());
    }
}

impl ActiveClosure {
    /// A registry that owns nothing.
    pub fn new() -> (r: ActiveClosure)
        ensures
            r@ == Seq::<HandleView>::empty(),
    {
        let r = ActiveClosure { handles: Vec::new() };
        assert(r@ =~= Seq::<HandleView>::empty());
        r
    }

    /// The number of handles that the registry owns.
    pub fn len(&self) -> (r: usize)
        ensures
            r == self@.len(),
    {
        self.handles.len()
    }

    /// Takes the handle of `listener`, attached to the node `node`, into the registry.
    pub fn register(&mut self, node: u64, listener: &Listener)
        ensures
            final(self)@ == old(self)@.push(
                HandleView { node, event: listener@.event, callback: listener@.callback },
            ),
    {
        self.handles.push(
            Handle { node, event: listener.event.clone(), callback: listener.callback },
        );
        assert(self@ =~= old(self)@.push(
            HandleView { node, event: listener@.event, callback: listener@.callback },
        ));
    }

    /// Takes the handles of `listeners`, attached to the node `node`, into the registry.
    pub fn register_all(&mut self, node: u64, listeners: &Vec<Listener>)
        ensures
            final(self)@ == old(self)@ + own_handles(node, listeners_view(listeners@)),
    {
        let ghost all = own_handles(node, listeners_view(listeners@));
        let mut i: usize = 0;
        assert(self@ =~= old(self)@ + all.take(0));
        while i < listeners.len()
            invariant
                i <= listeners.len(),
                all == own_handles(node, listeners_view(listeners@)),
                self@ == old(self)@ + all.take(i as int),
            decreases listeners.len() - i,
        {
            self.register(node, &listeners[i]);
            assert(old(self)@ + all.take(i as int + 1) =~= (old(self)@ + all.take(i as int)).push(
                all[i as int],
            ));
            i += 1;
        }
        assert(all.take(i as int) =~= all);
    }

    /// Takes the handles of all listeners in the tree `n` into the registry.
    pub fn register_tree(&mut self, n: &LiveNode)
        ensures
            final(self)@ == old(self)@ + handles(n@),
        decreases n,
    {
        match n {
            LiveNode::Text(_) => {
                assert(self@ =~= old(self)@ + handles(n@));
            },
            LiveNode::Element(e) => {
                proof {
                    lemma_live_element_view(*e);
                }
                self.register_element(e);
            },
        }
    }

    /// Takes the handles of all listeners in and below the element `e` into the registry.
    pub fn register_element(&mut self, e: &LiveElement)
        ensures
            final(self)@ == old(self)@ + handles(LiveNodeView::Element(e@)),
        decreases e,
    {
        self.register_all(e.id, &e.listeners);
        let ghost own = own_handles(e.id, e@.listeners);
        let ghost c = e@.children;
        let mut i: usize = 0;
        assert(self@ =~= old(self)@ + (own + forest_handles(c, 0)));
        while i < e.children.len()
            invariant
                i <= e.children.len(),
                c == lives_view(e.children@),
                self@ == old(self)@ + (own + forest_handles(c, i as int)),
            decreases e.children.len() - i,
        {
            let ghost before = self@;
            self.register_tree(&e.children[i]);
            assert(old(self)@ + (own + forest_handles(c, i as int + 1)) =~= before + handles(
                c[i as int],
            ));
            i += 1;
        }
    }

    /// Takes the handles of all listeners in the trees `c` into the registry.
    pub fn register_forest(&mut self, c: &Vec<LiveNode>)
        ensures
            final(self)@ == old(self)@ + forest_handles(lives_view(c@), c.len() as int),
    {
        let ghost v = lives_view(c@);
        let mut i: usize = 0;
        assert(self@ =~= old(self)@ + forest_handles(v, 0));
        while i < c.len()
            invariant
                i <= c.len(),
                v == lives_view(c@),
                self@ == old(self)@ + forest_handles(v, i as int),
            decreases c.len() - i,
        {
            let ghost before = self@;
            self.register_tree(&c[i]);
            assert(old(self)@ + forest_handles(v, i as int + 1) =~= before + handles(v[i as int]));
            i += 1;
        }
    }

    /// Releases the handle of `listener` on the node `node`: the first such
    /// handle leaves the registry. A registry that holds none stays as it is,
    /// and the call fails.
    pub fn release(&mut self, node: u64, listener: &Listener) -> (r: Result<(), PatchError>)
        ensures
            final(self)@ == without(
                old(self)@,
                HandleView { node, event: listener@.event, callback: listener@.callback },
            ),
            match r {
                Ok(_) => handle_index(
                    old(self)@,
                    HandleView { node, event: listener@.event, callback: listener@.callback },
                    0,
                ) >= 0,
                Err(e) => e == PatchError::RegistryInconsistency && handle_index(
                    old(self)@,
                    HandleView { node, event: listener@.event, callback: listener@.callback },
                    0,
                ) < 0,
            },
    {
        let ghost h = HandleView { node, event: listener@.event, callback: listener@.callback };
        let mut i: usize = 0;
        while i < self.handles.len()
            invariant
                i <= self.handles.len(),
                self.handles == old(self).handles,
                h == (HandleView { node, event: listener@.event, callback: listener@.callback }),
                handle_index(self@, h, 0) == handle_index(self@, h, i as int),
            decreases self.handles.len() - i,
        {
            let hit = self.handles[i].node == node && self.handles[i].event == listener.event
                && self.handles[i].callback.id == listener.callback.id;
            assert(hit == (self@[i as int] == h));
            if hit {
                let ghost before = self@;
                self.handles.remove(i);
                assert(self@ =~= before.remove(i as int));
                return Ok(());
            }
            i += 1;
        }
        Err(PatchError::RegistryInconsistency)
    }

    /// Releases the handles of `listeners` on the node `node`, in order; those
    /// that the registry does not hold are passed over.
    pub fn release_all(&mut self, node: u64, listeners: &Vec<Listener>)
        ensures
            final(self)@ == released(old(self)@, own_handles(node, listeners_view(listeners@))),
    {
        let ghost all = own_handles(node, listeners_view(listeners@));
        let mut i: usize = 0;
        assert(all.take(0) =~= Seq::<HandleView>::empty());
        while i < listeners.len()
            invariant
                i <= listeners.len(),
                all == own_handles(node, listeners_view(listeners@)),
                self@ == released(old(self)@, all.take(i as int)),
            decreases listeners.len() - i,
        {
            let _ = self.release(node, &listeners[i]);
            assert(all.take(i as int + 1).drop_last() =~= all.take(i as int));
            assert(all.take(i as int + 1).last() == all[i as int]);
            i += 1;
        }
        assert(all.take(i as int) =~= all);
    }

    /// Releases the handles of all listeners in the tree `n`, in document order;
    /// those that the registry does not hold are passed over.
    pub fn release_tree(&mut self, n: &LiveNode)
        ensures
            final(self)@ == released(old(self)@, handles(n@)),
        decreases n,
    {
        match n {
            LiveNode::Text(_) => {},
            LiveNode::Element(e) => {
                proof {
                    lemma_live_element_view(*e);
                }
                self.release_element(e);
            },
        }
    }

    /// Releases the handles of all listeners in and below the element `e`.
    pub fn release_element(&mut self, e: &LiveElement)
        ensures
            final(self)@ == released(old(self)@, handles(LiveNodeView::Element(e@))),
        decreases e,
    {
        self.release_all(e.id, &e.listeners);
        let ghost own = own_handles(e.id, e@.listeners);
        let ghost c = e@.children;
        let mut i: usize = 0;
        assert(own + forest_handles(c, 0) =~= own);
        while i < e.children.len()
            invariant
                i <= e.children.len(),
                c == lives_view(e.children@),
                self@ == released(old(self)@, own + forest_handles(c, i as int)),
            decreases e.children.len() - i,
        {
            self.release_tree(&e.children[i]);
            proof {
                lemma_released_concat(
                    old(self)@,
                    own + forest_handles(c, i as int),
                    handles(c[i as int]),
                );
                assert(own + forest_handles(c, i as int + 1) =~= (own + forest_handles(
                    c,
                    i as int,
                )) + handles(c[i as int]));
            }
            i += 1;
        }
    }
}

} // verus!

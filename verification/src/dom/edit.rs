use vstd::prelude::*;
use crate::diff::engine::binds;
use crate::diff::model::listener_names;
use crate::dom::live::{
    clone_lives, lemma_live_element_view, listeners_view, lives_view, Listener, ListenerView,
    LiveElement, LiveNode, LiveNodeView,
};
use crate::dom::materialize::{collect_listeners, materialize, materialize_all, set_attributes};
use crate::dom::model::{
    demand, edited, fits, pick_listeners, plain_names, prepared, unset_all, EditView,
};
use crate::vdom::attribute::{attrs_view, is_listener, Attribute, AttributeView};
use crate::vdom::patch::PatchKind;

verus! {

/// What is done to a live node: a patch whose new nodes have been materialized.
#[derive(Debug, PartialEq, Eq)]
pub enum Edit {
    SetAttributes(Vec<Attribute>),
    UnsetAttributes(Vec<Attribute>),
    Replace(LiveNode),
    Append(Vec<LiveNode>),
    Remove,
    SetText(String),
}

impl View for Edit {
    type V = EditView;

    open spec fn view(&self) -> EditView {
        match self {
            Edit::SetAttributes(a) => EditView::SetAttributes(attrs_view(a@)),
            Edit::UnsetAttributes(a) => EditView::UnsetAttributes(attrs_view(a@)),
            Edit::Replace(n) => EditView::Replace(n@),
            Edit::Append(c) => EditView::Append(lives_view(c@)),
            Edit::Remove => EditView::Remove,
            Edit::SetText(t) => EditView::SetText(t@),
        }
    }
}

/// One edit that was made, and the identity of the node that it was made to.
#[derive(Debug, PartialEq, Eq)]
pub struct Mutation {
    pub target: u64,
    pub edit: Edit,
}

/// Whether a patch of this kind can be carried out on the node `n`.
pub fn kind_fits(n: &LiveNode, kind: &PatchKind) -> (r: bool)
    ensures
        r == fits(n@, kind@),
{
    let element = match n {
        LiveNode::Element(_) => true,
        LiveNode::Text(_) => false,
    };
    match kind {
        PatchKind::AddAttributes(_) => element,
        PatchKind::RemoveAttributes(_) => element,
        PatchKind::AppendChildren(_) => element,
        PatchKind::ChangeText { .. } => !element,
        PatchKind::ReplaceNode(_) => true,
        PatchKind::RemoveNode => true,
    }
}

/// The edit that a patch of this kind stands for, with identities from `next`
/// on for its new nodes, and the next identity after them; nothing where the
/// identities do not suffice.
pub fn prepare(kind: &PatchKind, next: u64) -> (r: Option<(Edit, u64)>)
    ensures
        match r {
            Some((edit, after)) => next + demand(kind@) <= u64::MAX && edit@ == prepared(
                kind@,
                next,
            ) && after == next + demand(kind@),
            None => next + demand(kind@) > u64::MAX,
        },
{
    match kind {
        PatchKind::AddAttributes(a) => Some(
            (Edit::SetAttributes(crate::vdom::attribute::clone_attributes(a)), next),
        ),
        PatchKind::RemoveAttributes(a) => Some(
            (Edit::UnsetAttributes(crate::vdom::attribute::clone_attributes(a)), next),
        ),
        PatchKind::ReplaceNode(n) => match materialize(n, next) {
            Some((live, after)) => Some((Edit::Replace(live), after)),
            None => None,
        },
        PatchKind::AppendChildren(c) => match materialize_all(c, next) {
            Some((lives, after)) => Some((Edit::Append(lives), after)),
            None => None,
        },
        PatchKind::RemoveNode => Some((Edit::Remove, next)),
        PatchKind::ChangeText { old, new } => Some((Edit::SetText(new.text.clone()), next)),
    }
}

/// Whether one of `attrs` that binds no listener is called `name`.
fn names_plainly(attrs: &Vec<Attribute>, name: &String) -> (r: bool)
    ensures
        r == plain_names(attrs_view(attrs@)).contains(name@),
{
    let mut i: usize = 0;
    while i < attrs.len()
        invariant
            i <= attrs.len(),
            forall|k: int|
                0 <= k < i ==> !(!is_listener(#[trigger] attrs_view(attrs@)[k]) && attrs_view(
                    attrs@,
                )[k].name == name@),
        decreases attrs.len() - i,
    {
        if !attrs[i].is_event() && attrs[i].name == *name {
            assert(!is_listener(attrs_view(attrs@)[i as int]));
            return true;
        }
        i += 1;
    }
    false
}

/// The attributes of `cur` without those that `attrs` names plainly.
pub fn unset_attributes(cur: &Vec<Attribute>, attrs: &Vec<Attribute>) -> (r: Vec<Attribute>)
    ensures
        attrs_view(r@) == unset_all(attrs_view(cur@), plain_names(attrs_view(attrs@))),
{
    let ghost src = attrs_view(cur@);
    let ghost names = plain_names(attrs_view(attrs@));
    let mut out: Vec<Attribute> = Vec::new();
    let mut i: usize = 0;
    assert(src.take(0) =~= Seq::<AttributeView>::empty());
    assert(attrs_view(out@) =~= Seq::<AttributeView>::empty());
    while i < cur.len()
        invariant
            i <= cur.len(),
            src == attrs_view(cur@),
            names == plain_names(attrs_view(attrs@)),
            attrs_view(out@) == unset_all(src.take(i as int), names),
        decreases cur.len() - i,
    {
        let ghost before = attrs_view(out@);
        if !names_plainly(attrs, &cur[i].name) {
            out.push(cur[i].clone());
            assert(attrs_view(out@) =~= before.push(src[i as int]));
        }
        assert(src.take(i as int + 1).drop_last() =~= src.take(i as int));
        assert(src.take(i as int + 1).last() == src[i as int]);
        i += 1;
    }
    assert(src.take(i as int) =~= src);
    out
}

/// The listeners of `ls` for an event that `attrs` listens to where `hit` is
/// set, and the others where it is not.
pub fn pick(ls: &Vec<Listener>, attrs: &Vec<Attribute>, hit: bool) -> (r: Vec<Listener>)
    ensures
        listeners_view(r@) == pick_listeners(
            listeners_view(ls@),
            listener_names(attrs_view(attrs@)),
            hit,
        ),
{
    let ghost src = listeners_view(ls@);
    let ghost events = listener_names(attrs_view(attrs@));
    let mut out: Vec<Listener> = Vec::new();
    let mut i: usize = 0;
    assert(src.take(0) =~= Seq::<ListenerView>::empty());
    assert(listeners_view(out@) =~= Seq::<ListenerView>::empty());
    while i < ls.len()
        invariant
            i <= ls.len(),
            src == listeners_view(ls@),
            events == listener_names(attrs_view(attrs@)),
            listeners_view(out@) == pick_listeners(src.take(i as int), events, hit),
        decreases ls.len() - i,
    {
        let ghost before = listeners_view(out@);
        if binds(attrs, &ls[i].event) == hit {
            out.push(ls[i].clone());
            assert(listeners_view(out@) =~= before.push(src[i as int]));
        }
        assert(src.take(i as int + 1).drop_last() =~= src.take(i as int));
        assert(src.take(i as int + 1).last() == src[i as int]);
        i += 1;
    }
    assert(src.take(i as int) =~= src);
    out
}

/// Makes the edit to the element `e`, where it is one that changes an element
/// in place.
pub fn edit_element(e: &mut LiveElement, edit: &Edit)
    requires
        !(edit@ is Replace),
    ensures
        LiveNodeView::Element(final(e)@) == edited(LiveNodeView::Element(old(e)@), edit@),
{
    match edit {
        Edit::SetAttributes(a) => {
            set_attributes(&mut e.attrs, a);
            let mut added = collect_listeners(a);
            let ghost before = listeners_view(e.listeners@);
            let ghost more = listeners_view(added@);
            e.listeners.append(&mut added);
            assert(listeners_view(e.listeners@) =~= before + more);
        },
        Edit::UnsetAttributes(a) => {
            let attrs = unset_attributes(&e.attrs, a);
            let listeners = pick(&e.listeners, a, false);
            e.attrs = attrs;
            e.listeners = listeners;
        },
        Edit::Append(c) => {
            let mut added = clone_lives(c);
            let ghost before = lives_view(e.children@);
            let ghost more = lives_view(added@);
            e.children.append(&mut added);
            assert(lives_view(e.children@) =~= before + more);
        },
        _ => {},
    }
}

/// Makes the edit to the node `n`; a removal leaves the node itself alone.
pub fn edit_node(n: &mut LiveNode, edit: &Edit)
    ensures
        final(n)@ == edited(old(n)@, edit@),
{
    match edit {
        Edit::Replace(new) => {
            *n = new.clone();
        },
        _ => {
            match n {
                LiveNode::Element(e) => {
                    proof {
                        lemma_live_element_view(*e);
                    }
                    edit_element(e, edit);
                    proof {
                        lemma_live_element_view(*e);
                    }
                },
                LiveNode::Text(t) => {
                    match edit {
                        Edit::SetText(s) => {
                            t.text = s.clone();
                        },
                        _ => {},
                    }
                },
            }
        },
    }
}

} // verus!

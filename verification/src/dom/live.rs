use vstd::prelude::*;
use crate::vdom::attribute::{attrs_view, clone_attributes, opt_str_view, Attribute, AttributeView};
use crate::vdom::value::Callback;

verus! {

/// A listener that is attached to a live element.
#[derive(Debug, PartialEq, Eq)]
pub struct Listener {
    pub event: String,
    pub callback: Callback,
}

/// The mathematical content of a [`Listener`].
pub struct ListenerView {
    pub event: Seq<char>,
    pub callback: u64,
}

impl View for Listener {
    type V = ListenerView;

    open spec fn view(&self) -> ListenerView {
        ListenerView { event: self.event@, callback: self.callback.id }
    }
}

impl Clone for Listener {
    fn clone(&self) -> (r: Listener)
        ensures
            r@ == self@,
    {
        Listener { event: self.event.clone(), callback: self.callback }
    }
}

/// The views of a sequence of listeners, in order.
pub open spec fn listeners_view(s: Seq<Listener>) -> Seq<ListenerView> {
    Seq::new(s.len(), |i: int| s[i]@)
}

/// A copy of a list of listeners.
pub fn clone_listeners(a: &Vec<Listener>) -> (r: Vec<Listener>)
    ensures
        listeners_view(r@) == listeners_view(a@),
{
    let mut out: Vec<Listener> = Vec::new();
    let mut i: usize = 0;
    while i < a.len()
        invariant
            i <= a.len(),
            out.len() == i,
            forall|k: int| 0 <= k < i ==> out@[k]@ == a@[k]@,
        decreases a.len() - i,
    {
        out.push(a[i].clone());
        i += 1;
    }
    assert(listeners_view(out@) =~= listeners_view(a@));
    out
}

/// A live text leaf.
#[derive(Debug, PartialEq, Eq)]
pub struct LiveText {
    /// The identity of the leaf.
    pub id: u64,
    pub text: String,
}

/// A live element.
#[derive(Debug, PartialEq, Eq)]
pub struct LiveElement {
    /// The identity of the element.
    pub id: u64,
    pub namespace: Option<String>,
    pub tag: String,
    /// The plain attributes that are set, each with its values.
    pub attrs: Vec<Attribute>,
    /// The listeners that are attached, in the order in which they were attached.
    pub listeners: Vec<Listener>,
    pub children: Vec<LiveNode>,
}

/// A node of a live tree.
#[derive(Debug, PartialEq, Eq)]
pub enum LiveNode {
    Element(LiveElement),
    Text(LiveText),
}

/// The mathematical content of a [`LiveElement`].
pub struct LiveElementView {
    pub id: u64,
    pub namespace: Option<Seq<char>>,
    pub tag: Seq<char>,
    pub attrs: Seq<AttributeView>,
    pub listeners: Seq<ListenerView>,
    pub children: Seq<LiveNodeView>,
}

/// The mathematical content of a [`LiveNode`].
pub enum LiveNodeView {
    Element(LiveElementView),
    Text { id: u64, text: Seq<char> },
}

/// The content of a live node, children included.
pub open spec fn live_view(n: LiveNode) -> LiveNodeView
    decreases n,
{
    match n {
        LiveNode::Text(t) => LiveNodeView::Text { id: t.id, text: t.text@ },
        LiveNode::Element(e) => LiveNodeView::Element(
            LiveElementView {
                id: e.id,
                namespace: opt_str_view(e.namespace),
                tag: e.tag@,
                attrs: attrs_view(e.attrs@),
                listeners: listeners_view(e.listeners@),
                children: Seq::new(
                    e.children@.len(),
                    |i: int|
                        if 0 <= i < e.children@.len() {
                            live_view(e.children@[i])
                        } else {
                            LiveNodeView::Text { id: 0, text: Seq::empty() }
                        },
                ),
            },
        ),
    }
}

impl View for LiveNode {
    type V = LiveNodeView;

    open spec fn view(&self) -> LiveNodeView {
        live_view(*self)
    }
}

/// The views of a sequence of live nodes, in order.
pub open spec fn lives_view(s: Seq<LiveNode>) -> Seq<LiveNodeView> {
    Seq::new(s.len(), |i: int| s[i]@)
}

impl View for LiveElement {
    type V = LiveElementView;

    open spec fn view(&self) -> LiveElementView {
        LiveElementView {
            id: self.id,
            namespace: opt_str_view(self.namespace),
            tag: self.tag@,
            attrs: attrs_view(self.attrs@),
            listeners: listeners_view(self.listeners@),
            children: lives_view(self.children@),
        }
    }
}

/// The view of a live element node is the view of its element.
pub proof fn lemma_live_element_view(e: LiveElement)
    ensures
        LiveNode::Element(e)@ == LiveNodeView::Element(e@),
{
    assert(live_view(LiveNode::Element(e))->Element_0.children =~= lives_view(e.children@));
}

impl Clone for LiveText {
    fn clone(&self) -> (r: LiveText)
        ensures
            r.id == self.id,
            r.text@ == self.text@,
    {
        LiveText { id: self.id, text: self.text.clone() }
    }
}

impl Clone for LiveElement {
    fn clone(&self) -> (r: LiveElement)
        ensures
            r@ == self@,
        decreases self,
    {
        let ns: Option<String> = match &self.namespace {
            Some(s) => Some(s.clone()),
            None => None,
        };
        let mut children: Vec<LiveNode> = Vec::new();
        let mut i: usize = 0;
        while i < self.children.len()
            invariant
                i <= self.children.len(),
                children.len() == i,
                forall|k: int| 0 <= k < i ==> children@[k]@ == self.children@[k]@,
            decreases self.children.len() - i,
        {
            children.push(self.children[i].clone());
            i += 1;
        }
        assert(lives_view(children@) =~= lives_view(self.children@));
        LiveElement {
            id: self.id,
            namespace: ns,
            tag: self.tag.clone(),
            attrs: clone_attributes(&self.attrs),
            listeners: clone_listeners(&self.listeners),
            children,
        }
    }
}

impl Clone for LiveNode {
    fn clone(&self) -> (r: LiveNode)
        ensures
            r@ == self@,
        decreases self,
    {
        match self {
            LiveNode::Text(t) => LiveNode::Text(t.clone()),
            LiveNode::Element(e) => {
                let c = e.clone();
                proof {
                    lemma_live_element_view(*e);
                    lemma_live_element_view(c);
                }
                LiveNode::Element(c)
            },
        }
    }
}

/// A copy of a list of live nodes.
pub fn clone_lives(a: &Vec<LiveNode>) -> (r: Vec<LiveNode>)
    ensures
        lives_view(r@) == lives_view(a@),
{
    let mut out: Vec<LiveNode> = Vec::new();
    let mut i: usize = 0;
    while i < a.len()
        invariant
            i <= a.len(),
            out.len() == i,
            forall|k: int| 0 <= k < i ==> out@[k]@ == a@[k]@,
        decreases a.len() - i,
    {
        out.push(a[i].clone());
        i += 1;
    }
    assert(lives_view(out@) =~= lives_view(a@));
    out
}

/// The identity of a live node.
pub open spec fn id_of(n: LiveNodeView) -> u64 {
    match n {
        LiveNodeView::Element(e) => e.id,
        LiveNodeView::Text { id, .. } => id,
    }
}

/// The children of a live node; a text leaf has none.
pub open spec fn children_of(n: LiveNodeView) -> Seq<LiveNodeView> {
    match n {
        LiveNodeView::Element(e) => e.children,
        LiveNodeView::Text { .. } => Seq::empty(),
    }
}

impl LiveNode {
    /// The identity of this node.
    pub fn id(&self) -> (r: u64)
        ensures
            r == id_of(self@),
    {
        match self {
            LiveNode::Element(e) => e.id,
            LiveNode::Text(t) => t.id,
        }
    }
}

} // verus!

use vstd::prelude::*;
use crate::vdom::attribute::{
    attrs_view, clone_attributes, opt_str_view, same_attributes, Attribute, AttributeView,
};

verus! {

/// A text leaf.
#[derive(Debug, PartialEq, Eq)]
pub struct Text {
    pub text: String,
}

/// An element: a tag, its attributes as they were declared, and its children.
#[derive(Debug, PartialEq, Eq)]
pub struct Element {
    pub namespace: Option<String>,
    pub tag: String,
    pub attrs: Vec<Attribute>,
    pub children: Vec<Node>,
    pub self_closing: bool,
}

/// A node of a virtual tree.
#[derive(Debug, PartialEq, Eq)]
pub enum Node {
    Element(Element),
    Text(Text),
}

/// The mathematical content of an [`Element`].
pub struct ElementView {
    pub namespace: Option<Seq<char>>,
    pub tag: Seq<char>,
    pub attrs: Seq<AttributeView>,
    pub children: Seq<NodeView>,
    pub self_closing: bool,
}

/// The mathematical content of a [`Node`].
pub enum NodeView {
    Element(ElementView),
    Text(Seq<char>),
}

/// The content of a node, children included.
pub open spec fn node_view(n: Node) -> NodeView
    decreases n,
{
    match n {
        Node::Text(t) => NodeView::Text(t.text@),
        Node::Element(e) => NodeView::Element(
            ElementView {
                namespace: opt_str_view(e.namespace),
                tag: e.tag@,
                attrs: attrs_view(e.attrs@),
                children: Seq::new(
                    e.children@.len(),
                    |i: int|
                        if 0 <= i < e.children@.len() {
                            node_view(e.children@[i])
                        } else {
                            NodeView::Text(Seq::empty())
                        },
                ),
                self_closing: e.self_closing,
            },
        ),
    }
}

impl View for Node {
    type V = NodeView;

    open spec fn view(&self) -> NodeView {
        node_view(*self)
    }
}

/// The views of a sequence of nodes, in order.
pub open spec fn nodes_view(s: Seq<Node>) -> Seq<NodeView> {
    Seq::new(s.len(), |i: int| s[i]@)
}

impl View for Element {
    type V = ElementView;

    open spec fn view(&self) -> ElementView {
        ElementView {
            namespace: opt_str_view(self.namespace),
            tag: self.tag@,
            attrs: attrs_view(self.attrs@),
            children: nodes_view(self.children@),
            self_closing: self.self_closing,
        }
    }
}

impl View for Text {
    type V = Seq<char>;

    open spec fn view(&self) -> Seq<char> {
        self.text@
    }
}

/// The view of an element node is the view of its element.
pub proof fn lemma_element_view(e: Element)
    ensures
        Node::Element(e)@ == NodeView::Element(e@),
{
    assert(node_view(Node::Element(e))->Element_0.children =~= nodes_view(e.children@));
}

impl Text {
    /// The leaf that holds `s`.
    pub fn new(s: &str) -> (r: Text)
        ensures
            r@ == s@,
    {
        Text { text: s.to_owned() }
    }
}

impl Clone for Text {
    fn clone(&self) -> (r: Text)
        ensures
            r@ == self@,
    {
        Text { text: self.text.clone() }
    }
}

impl Element {
    /// An element made of the given parts.
    pub fn new(
        namespace: Option<&str>,
        tag: &str,
        attrs: Vec<Attribute>,
        children: Vec<Node>,
        self_closing: bool,
    ) -> (r: Element)
        ensures
            r@.tag == tag@,
            r@.attrs == attrs_view(attrs@),
            r@.children == nodes_view(children@),
            r@.self_closing == self_closing,
            match namespace {
                Some(ns) => r@.namespace == Some(ns@),
                None => r@.namespace.is_none(),
            },
    {
        let ns: Option<String> = match namespace {
            Some(s) => Some(s.to_owned()),
            None => None,
        };
        Element { namespace: ns, tag: tag.to_owned(), attrs, children, self_closing }
    }

    /// Adds declarations behind those that the element has.
    pub fn add_attributes(&mut self, attrs: Vec<Attribute>)
        ensures
            final(self)@ == (ElementView {
                attrs: old(self)@.attrs + attrs_view(attrs@),
                ..old(self)@
            }),
    {
        let mut attrs = attrs;
        let ghost before = self.attrs@;
        let ghost added = attrs@;
        self.attrs.append(&mut attrs);
        assert(attrs_view(self.attrs@) =~= attrs_view(before) + attrs_view(added));
    }

    /// Adds children behind those that the element has.
    pub fn add_children(&mut self, children: Vec<Node>)
        ensures
            final(self)@ == (ElementView {
                children: old(self)@.children + nodes_view(children@),
                ..old(self)@
            }),
    {
        let mut children = children;
        let ghost before = self.children@;
        let ghost added = children@;
        self.children.append(&mut children);
        assert(nodes_view(self.children@) =~= nodes_view(before) + nodes_view(added));
    }

    /// The declarations of this element, as they were made.
    pub fn get_attributes(&self) -> (r: &Vec<Attribute>)
        ensures
            attrs_view(r@) == self@.attrs,
    {
        &self.attrs
    }

    /// The children of this element.
    pub fn get_children(&self) -> (r: &Vec<Node>)
        ensures
            nodes_view(r@) == self@.children,
    {
        &self.children
    }

    /// Whether two elements have the same content.
    pub fn same(&self, other: &Element) -> (r: bool)
        ensures
            r == (self@ == other@),
        decreases self,
    {
        let ns = match (&self.namespace, &other.namespace) {
            (Some(a), Some(b)) => *a == *b,
            (None, None) => true,
            _ => false,
        };
        if !ns || self.tag != other.tag || self.self_closing != other.self_closing {
            return false;
        }
        if !same_attributes(&self.attrs, &other.attrs) {
            return false;
        }
        if self.children.len() != other.children.len() {
            assert(self@.children.len() != other@.children.len());
            return false;
        }
        let mut i: usize = 0;
        while i < self.children.len()
            invariant
                i <= self.children.len(),
                self.children.len() == other.children.len(),
                forall|k: int| 0 <= k < i ==> self.children@[k]@ == other.children@[k]@,
            decreases self.children.len() - i,
        {
            if !self.children[i].same(&other.children[i]) {
                assert(self@.children[i as int] != other@.children[i as int]);
                return false;
            }
            i += 1;
        }
        assert(self@.children =~= other@.children);
        true
    }
}

impl Clone for Element {
    fn clone(&self) -> (r: Element)
        ensures
            r@ == self@,
        decreases self,
    {
        let ns: Option<String> = match &self.namespace {
            Some(s) => Some(s.clone()),
            None => None,
        };
        let mut children: Vec<Node> = Vec::new();
        let mut i: usize = 0;
        while i < self.children.len()
            invariant
                i <= self.children.len(),
                children.len() == i,
                forall|k: int| 0 <= k < i ==> children@[k]@ == self.children@[k]@,
            decreases self.children.len() - i,
        {
            children.push(self.children[i].clone());
            i += 1;
        }
        assert(nodes_view(children@) =~= nodes_view(self.children@));
        Element {
            namespace: ns,
            tag: self.tag.clone(),
            attrs: clone_attributes(&self.attrs),
            children,
            self_closing: self.self_closing,
        }
    }
}

impl Node {
    /// The declarations of this node, where it is an element.
    pub fn get_attributes(&self) -> (r: Option<&Vec<Attribute>>)
        ensures
            match self@ {
                NodeView::Element(e) => r.is_some() && attrs_view(r.unwrap()@) == e.attrs,
                NodeView::Text(_) => r.is_none(),
            },
    {
        match self {
            Node::Element(e) => {
                proof {
                    lemma_element_view(*e);
                }
                Some(&e.attrs)
            },
            Node::Text(_) => None,
        }
    }

    /// The tag of this node, where it is an element.
    pub fn tag(&self) -> (r: Option<&String>)
        ensures
            match self@ {
                NodeView::Element(e) => r.is_some() && r.unwrap()@ == e.tag,
                NodeView::Text(_) => r.is_none(),
            },
    {
        match self {
            Node::Element(e) => Some(&e.tag),
            Node::Text(_) => None,
        }
    }

    /// Whether two nodes have the same content.
    pub fn same(&self, other: &Node) -> (r: bool)
        ensures
            r == (self@ == other@),
        decreases self,
    {
        match (self, other) {
            (Node::Text(a), Node::Text(b)) => a.text == b.text,
            (Node::Element(a), Node::Element(b)) => {
                proof {
                    lemma_element_view(*a);
                    lemma_element_view(*b);
                }
                a.same(b)
            },
            _ => false,
        }
    }
}

impl Clone for Node {
    fn clone(&self) -> (r: Node)
        ensures
            r@ == self@,
        decreases self,
    {
        match self {
            Node::Text(t) => Node::Text(t.clone()),
            Node::Element(e) => {
                let c = e.clone();
                proof {
                    lemma_element_view(*e);
                    lemma_element_view(c);
                }
                Node::Element(c)
            },
        }
    }
}

} // verus!

use vstd::prelude::*;
use crate::vdom::attribute::{attrs_view, merge_attributes, merged, opt_str_view, Attribute, AttributeView};
use crate::vdom::node::{nodes_view, Node, NodeView, Text};
use crate::vdom::path::TreePath;

verus! {

/// What a patch does to the node that it addresses.
#[derive(Debug, PartialEq, Eq)]
pub enum PatchKind {
    /// Set these attributes, each folded by name.
    AddAttributes(Vec<Attribute>),
    /// Unset these attributes.
    RemoveAttributes(Vec<Attribute>),
    /// Put this node in the place of the addressed one.
    ReplaceNode(Node),
    /// Add these children behind those that the addressed element has.
    AppendChildren(Vec<Node>),
    /// Take the addressed node out of the tree.
    RemoveNode,
    /// Give the addressed text leaf the content of `new`; `old` is what it held.
    ChangeText { old: Text, new: Text },
}

/// One unit of change to a live tree.
#[derive(Debug, PartialEq, Eq)]
pub struct Patch {
    /// The tag of the addressed node in the old tree, where it is an element.
    pub tag: Option<String>,
    /// The address of the node to change.
    pub path: TreePath,
    pub kind: PatchKind,
}

/// The mathematical content of a [`PatchKind`].
pub enum PatchKindView {
    AddAttributes(Seq<AttributeView>),
    RemoveAttributes(Seq<AttributeView>),
    ReplaceNode(NodeView),
    AppendChildren(Seq<NodeView>),
    RemoveNode,
    ChangeText { old: Seq<char>, new: Seq<char> },
}

/// The mathematical content of a [`Patch`].
pub struct PatchView {
    pub tag: Option<Seq<char>>,
    pub path: Seq<usize>,
    pub kind: PatchKindView,
}

impl View for PatchKind {
    type V = PatchKindView;

    open spec fn view(&self) -> PatchKindView {
        match self {
            PatchKind::AddAttributes(a) => PatchKindView::AddAttributes(attrs_view(a@)),
            PatchKind::RemoveAttributes(a) => PatchKindView::RemoveAttributes(attrs_view(a@)),
            PatchKind::ReplaceNode(n) => PatchKindView::ReplaceNode(n@),
            PatchKind::AppendChildren(c) => PatchKindView::AppendChildren(nodes_view(c@)),
            PatchKind::RemoveNode => PatchKindView::RemoveNode,
            PatchKind::ChangeText { old, new } => PatchKindView::ChangeText { old: old@, new: new@ },
        }
    }
}

impl View for Patch {
    type V = PatchView;

    open spec fn view(&self) -> PatchView {
        PatchView { tag: opt_str_view(self.tag), path: self.path@, kind: self.kind@ }
    }
}

/// The views of a sequence of patches, in order.
pub open spec fn patches_view(s: Seq<Patch>) -> Seq<PatchView> {
    Seq::new(s.len(), |i: int| s[i]@)
}

/// The view of an optional string slice.
pub open spec fn opt_slice_view(s: Option<&str>) -> Option<Seq<char>> {
    match s {
        Some(t) => Some(t@),
        None => None,
    }
}

/// A tag of its own, where there is one.
fn owned_tag(tag: Option<&str>) -> (r: Option<String>)
    ensures
        opt_str_view(r) == opt_slice_view(tag),
{
    match tag {
        Some(s) => Some(s.to_owned()),
        None => None,
    }
}

impl Patch {
    /// The patch that sets `attrs`, folded by name, on the element at `path`.
    pub fn add_attributes(tag: &str, path: TreePath, attrs: Vec<Attribute>) -> (r: Patch)
        ensures
            r@ == (PatchView {
                tag: Some(tag@),
                path: path@,
                kind: PatchKindView::AddAttributes(merged(attrs_view(attrs@))),
            }),
    {
        Patch {
            tag: Some(tag.to_owned()),
            path,
            kind: PatchKind::AddAttributes(merge_attributes(&attrs)),
        }
    }

    /// The patch that unsets `attrs`, folded by name, on the element at `path`.
    pub fn remove_attributes(tag: &str, path: TreePath, attrs: Vec<Attribute>) -> (r: Patch)
        ensures
            r@ == (PatchView {
                tag: Some(tag@),
                path: path@,
                kind: PatchKindView::RemoveAttributes(merged(attrs_view(attrs@))),
            }),
    {
        Patch {
            tag: Some(tag.to_owned()),
            path,
            kind: PatchKind::RemoveAttributes(merge_attributes(&attrs)),
        }
    }

    /// The patch that puts `node` in the place of the node at `path`.
    pub fn replace_node(tag: Option<&str>, path: TreePath, node: Node) -> (r: Patch)
        ensures
            r@ == (PatchView {
                tag: opt_slice_view(tag),
                path: path@,
                kind: PatchKindView::ReplaceNode(node@),
            }),
    {
        Patch { tag: owned_tag(tag), path, kind: PatchKind::ReplaceNode(node) }
    }

    /// The patch that adds `children` behind the children of the element at `path`.
    pub fn append_children(tag: &str, path: TreePath, children: Vec<Node>) -> (r: Patch)
        ensures
            r@ == (PatchView {
                tag: Some(tag@),
                path: path@,
                kind: PatchKindView::AppendChildren(nodes_view(children@)),
            }),
    {
        Patch { tag: Some(tag.to_owned()), path, kind: PatchKind::AppendChildren(children) }
    }

    /// The patch that takes the node at `path` out of the tree.
    pub fn remove_node(tag: Option<&str>, path: TreePath) -> (r: Patch)
        ensures
            r@ == (PatchView {
                tag: opt_slice_view(tag),
                path: path@,
                kind: PatchKindView::RemoveNode,
            }),
    {
        Patch { tag: owned_tag(tag), path, kind: PatchKind::RemoveNode }
    }

    /// The patch that gives the text leaf at `path`, which held `old`, the content of `new`.
    pub fn change_text(old: Text, path: TreePath, new: Text) -> (r: Patch)
        ensures
            r@ == (PatchView {
                tag: None,
                path: path@,
                kind: PatchKindView::ChangeText { old: old@, new: new@ },
            }),
    {
        Patch { tag: None, path, kind: PatchKind::ChangeText { old, new } }
    }

    /// The address of the node that this patch changes.
    pub fn path(&self) -> (r: &TreePath)
        ensures
            r@ == self@.path,
    {
        &self.path
    }
}

} // verus!

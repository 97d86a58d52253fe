use vstd::prelude::*;
use crate::dom::live::{children_of, lemma_live_element_view, lives_view, LiveElement, LiveNode};
use crate::dom::model::{
    contains_id, counterpart, counterpart_from, descend, find_first, find_from, holder, resolve,
};
use crate::vdom::path::TreePath;

verus! {

/// The identity of the node that the ordinals of `path` from position `d` on
/// lead to from `n`.
fn descend_from(n: &LiveNode, path: &TreePath, d: usize) -> (r: Option<u64>)
    requires
        d <= path@.len(),
    ensures
        r == descend(n@, path@.skip(d as int)),
    decreases path@.len() - d,
{
    if d == path.path.len() {
        return Some(n.id());
    }
    assert(path@.skip(d as int)[0] == path@[d as int]);
    assert(path@.skip(d as int).skip(1) =~= path@.skip(d as int + 1));
    match n {
        LiveNode::Text(_) => None,
        LiveNode::Element(e) => {
            proof {
                lemma_live_element_view(*e);
            }
            let i = path.path[d];
            if i < e.children.len() {
                descend_from(&e.children[i], path, d + 1)
            } else {
                None
            }
        },
    }
}

/// The identity of the node at `path` in the tree `root`, where there is one.
pub fn resolve_path(root: &LiveNode, path: &TreePath) -> (r: Option<u64>)
    ensures
        r == resolve(root@, path@),
{
    if path.path.len() > 0 && path.path[0] == 0 {
        descend_from(root, path, 1)
    } else {
        None
    }
}

/// The first node in document order of the tree `n` with identity `id`.
pub fn find<'a>(n: &'a LiveNode, id: u64) -> (r: Option<&'a LiveNode>)
    ensures
        match r {
            Some(s) => find_first(n@, id) == Some(s@),
            None => find_first(n@, id).is_none(),
        },
    decreases n,
{
    if n.id() == id {
        return Some(n);
    }
    match n {
        LiveNode::Text(_) => None,
        LiveNode::Element(e) => {
            proof {
                lemma_live_element_view(*e);
            }
            find_below(e, id)
        },
    }
}

/// The first node in document order below the element `e` with identity `id`.
pub fn find_below<'a>(e: &'a LiveElement, id: u64) -> (r: Option<&'a LiveNode>)
    ensures
        match r {
            Some(s) => find_from(e@.children, id, 0) == Some(s@),
            None => find_from(e@.children, id, 0).is_none(),
        },
    decreases e,
{
    let mut i: usize = 0;
    while i < e.children.len()
        invariant
            i <= e.children.len(),
            find_from(e@.children, id, 0) == find_from(e@.children, id, i as int),
        decreases e.children.len() - i,
    {
        match find(&e.children[i], id) {
            Some(s) => {
                return Some(s);
            },
            None => {},
        }
        i += 1;
    }
    None
}

/// Whether the tree `n` holds a node with identity `id`.
pub fn holds(n: &LiveNode, id: u64) -> (r: bool)
    ensures
        r == contains_id(n@, id),
{
    find(n, id).is_some()
}

/// The first position of a tree among `c` that holds a node with identity `id`.
pub fn first_holder(c: &Vec<LiveNode>, id: u64) -> (r: Option<usize>)
    ensures
        match r {
            Some(j) => j < c.len() && holder(lives_view(c@), id, 0) == j,
            None => holder(lives_view(c@), id, 0) == -1,
        },
{
    let mut i: usize = 0;
    while i < c.len()
        invariant
            i <= c.len(),
            holder(lives_view(c@), id, 0) == holder(lives_view(c@), id, i as int),
        decreases c.len() - i,
    {
        if holds(&c[i], id) {
            return Some(i);
        }
        i += 1;
    }
    None
}

/// The node of `new` that stands where the node `f` stands in `old`.
pub fn counterpart_of(old: &LiveNode, new: &LiveNode, f: u64) -> (r: Option<u64>)
    ensures
        r == counterpart(old@, new@, f),
    decreases old,
{
    match old {
        LiveNode::Text(t) => None,
        LiveNode::Element(a) => {
            proof {
                lemma_live_element_view(*a);
            }
            if a.id == f {
                match new {
                    LiveNode::Element(b) => {
                        proof {
                            lemma_live_element_view(*b);
                        }
                        if a.tag == b.tag {
                            Some(b.id)
                        } else {
                            None
                        }
                    },
                    LiveNode::Text(_) => None,
                }
            } else {
                counterpart_below(a, new, f)
            }
        },
    }
}

/// The counterpart of `f` under the first child of `old` that holds it.
pub fn counterpart_below(old: &LiveElement, new: &LiveNode, f: u64) -> (r: Option<u64>)
    ensures
        r == counterpart_from(old@.children, children_of(new@), f, 0),
    decreases old,
{
    let mut i: usize = 0;
    while i < old.children.len()
        invariant
            i <= old.children.len(),
            counterpart_from(old@.children, children_of(new@), f, 0) == counterpart_from(
                old@.children,
                children_of(new@),
                f,
                i as int,
            ),
        decreases old.children.len() - i,
    {
        if holds(&old.children[i], f) {
            return match new {
                LiveNode::Element(b) => {
                    proof {
                        lemma_live_element_view(*b);
                    }
                    if i < b.children.len() {
                        counterpart_of(&old.children[i], &b.children[i], f)
                    } else {
                        None
                    }
                },
                LiveNode::Text(_) => None,
            };
        }
        i += 1;
    }
    None
}

} // verus!

use vstd::prelude::*;
use crate::dom::edit::{edit_node, Edit};
use crate::dom::live::{lemma_live_element_view, lives_view, LiveNode};
use crate::dom::locate::first_holder;
use crate::dom::model::{edit_first, remove_first};

verus! {

/// Makes the edit to the first node in document order of the tree `n` that has
/// identity `id`.
pub fn edit_tree(n: &mut LiveNode, id: u64, edit: &Edit)
    ensures
        final(n)@ == edit_first(old(n)@, id, edit@),
    decreases *old(n),
{
    if n.id() == id {
        edit_node(n, edit);
    } else {
        match n {
            LiveNode::Text(_) => {},
            LiveNode::Element(e) => {
                proof {
                    lemma_live_element_view(*e);
                }
                let ghost before = lives_view(e.children@);
                match first_holder(&e.children, id) {
                    Some(j) => {
                        edit_tree(&mut e.children[j], id, edit);
                        proof {
                            lemma_live_element_view(*e);
                            assert(lives_view(e.children@) =~= before.update(
                                j as int,
                                edit_first(before[j as int], id, edit@),
                            ));
                        }
                    },
                    None => {},
                }
            },
        }
    }
}

/// Takes the first node in document order below the root of `n` that has
/// identity `id` out of the tree.
pub fn remove_tree(n: &mut LiveNode, id: u64)
    ensures
        final(n)@ == remove_first(old(n)@, id),
    decreases *old(n),
{
    match n {
        LiveNode::Text(_) => {},
        LiveNode::Element(e) => {
            proof {
                lemma_live_element_view(*e);
            }
            let ghost before = lives_view(e.children@);
            match first_holder(&e.children, id) {
                Some(j) => {
                    if e.children[j].id() == id {
                        e.children.remove(j);
                        proof {
                            lemma_live_element_view(*e);
                            assert(lives_view(e.children@) =~= before.remove(j as int));
                        }
                    } else {
                        remove_tree(&mut e.children[j], id);
                        proof {
                            lemma_live_element_view(*e);
                            assert(lives_view(e.children@) =~= before.update(
                                j as int,
                                remove_first(before[j as int], id),
                            ));
                        }
                    }
                },
                None => {},
            }
        },
    }
}

} // verus!

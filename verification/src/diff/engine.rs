use vstd::prelude::*;
use crate::diff::model::{
    any_keyed, attribute_patches, changed_attrs, diff_children, diff_node, diff_trees,
    dropped_attrs, is_changed, key_index, key_of, keyed_matches, keyed_removals, keys_of, leaves,
    listener_names, partner, positional_pairs, removal, shorter, tag_of, trailing_removals,
    KeyView,
};
use crate::vdom::attribute::{attrs_view, find_name, is_listener, merge_attributes, Attribute};
use crate::vdom::node::{lemma_element_view, nodes_view, Element, Node};
use crate::vdom::patch::{patches_view, Patch, PatchKind, PatchView};
use crate::vdom::path::TreePath;
use crate::vdom::value::{clone_values, same_values, values_view, AttributeValue};

verus! {

/// Whether one of `attrs` binds a listener to the event `name`.
pub fn binds(attrs: &Vec<Attribute>, name: &String) -> (r: bool)
    ensures
        r == listener_names(attrs_view(attrs@)).contains(name@),
{
    let mut i: usize = 0;
    while i < attrs.len()
        invariant
            i <= attrs.len(),
            forall|k: int|
                0 <= k < i ==> !(is_listener(#[trigger] attrs_view(attrs@)[k]) && attrs_view(
                    attrs@,
                )[k].name == name@),
        decreases attrs.len() - i,
    {
        if attrs[i].is_event() && attrs[i].name == *name {
            assert(is_listener(attrs_view(attrs@)[i as int]));
            return true;
        }
        i += 1;
    }
    false
}

/// Whether every event that `a` listens to is one that `b` listens to.
fn listens_within(a: &Vec<Attribute>, b: &Vec<Attribute>) -> (r: bool)
    ensures
        r == listener_names(attrs_view(a@)).subset_of(listener_names(attrs_view(b@))),
{
    let mut i: usize = 0;
    while i < a.len()
        invariant
            i <= a.len(),
            forall|k: int|
                0 <= k < i && is_listener(#[trigger] attrs_view(a@)[k]) ==> listener_names(
                    attrs_view(b@),
                ).contains(attrs_view(a@)[k].name),
        decreases a.len() - i,
    {
        if a[i].is_event() && !binds(b, &a[i].name) {
            assert(is_listener(attrs_view(a@)[i as int]));
            assert(listener_names(attrs_view(a@)).contains(a@[i as int]@.name));
            return false;
        }
        i += 1;
    }
    true
}

/// Whether two lists of declarations listen to the same events.
pub fn same_listener_names(a: &Vec<Attribute>, b: &Vec<Attribute>) -> (r: bool)
    ensures
        r == (listener_names(attrs_view(a@)) == listener_names(attrs_view(b@))),
{
    let r = listens_within(a, b) && listens_within(b, a);
    proof {
        if r {
            assert(listener_names(attrs_view(a@)) =~= listener_names(attrs_view(b@)));
        }
    }
    r
}

/// The patches for the attributes of two elements of one tag.
pub fn diff_attributes(old: &Element, new: &Element, path: &TreePath) -> (r: Vec<Patch>)
    ensures
        patches_view(r@) == attribute_patches(old@, new@, path@),
{
    let mo = merge_attributes(&old.attrs);
    let mn = merge_attributes(&new.attrs);
    let ghost vo = attrs_view(mo@);
    let ghost vn = attrs_view(mn@);
    let mut add: Vec<Attribute> = Vec::new();
    let mut i: usize = 0;
    assert(vn.take(0) =~= Seq::empty());
    assert(attrs_view(add@) =~= Seq::empty());
    while i < mn.len()
        invariant
            i <= mn.len(),
            vo == attrs_view(mo@),
            vn == attrs_view(mn@),
            attrs_view(add@) == changed_attrs(vo, vn.take(i as int)),
        decreases mn.len() - i,
    {
        let a = &mn[i];
        let ghost before = attrs_view(add@);
        let changed = !a.is_event() && match find_name(&mo, &a.name) {
            Some(j) => !same_values(&mo[j].value, &a.value),
            None => true,
        };
        assert(changed == is_changed(vo, a@));
        if changed {
            add.push(a.clone());
            assert(attrs_view(add@) =~= before.push(a@));
        }
        assert(vn.take(i as int + 1).drop_last() =~= vn.take(i as int));
        assert(vn.take(i as int + 1).last() == a@);
        i += 1;
    }
    assert(vn.take(i as int) =~= vn);
    let mut remove: Vec<Attribute> = Vec::new();
    let mut k: usize = 0;
    assert(vo.take(0) =~= Seq::empty());
    assert(attrs_view(remove@) =~= Seq::empty());
    while k < mo.len()
        invariant
            k <= mo.len(),
            vo == attrs_view(mo@),
            vn == attrs_view(mn@),
            attrs_view(remove@) == dropped_attrs(vo.take(k as int), vn),
        decreases mo.len() - k,
    {
        let a = &mo[k];
        let ghost before = attrs_view(remove@);
        if find_name(&mn, &a.name).is_none() {
            remove.push(a.clone());
            assert(attrs_view(remove@) =~= before.push(a@));
        }
        assert(vo.take(k as int + 1).drop_last() =~= vo.take(k as int));
        assert(vo.take(k as int + 1).last() == a@);
        k += 1;
    }
    assert(vo.take(k as int) =~= vo);
    let mut out: Vec<Patch> = Vec::new();
    if add.len() > 0 {
        out.push(
            Patch { tag: Some(old.tag.clone()), path: path.clone(), kind: PatchKind::AddAttributes(add) },
        );
    }
    if remove.len() > 0 {
        out.push(
            Patch {
                tag: Some(old.tag.clone()),
                path: path.clone(),
                kind: PatchKind::RemoveAttributes(remove),
            },
        );
    }
    assert(patches_view(out@) =~= attribute_patches(old@, new@, path@));
    out
}

/// The key of a node, where it has one.
pub fn node_key(n: &Node) -> (r: Option<Vec<AttributeValue>>)
    ensures
        key_view(r) == key_of(n@),
{
    match n {
        Node::Text(_) => None,
        Node::Element(e) => {
            proof {
                lemma_element_view(*e);
            }
            let m = merge_attributes(&e.attrs);
            let name = "key".to_owned();
            match find_name(&m, &name) {
                Some(j) => Some(clone_values(&m[j].value)),
                None => None,
            }
        },
    }
}

/// The view of an optional key.
pub open spec fn key_view(k: Option<Vec<AttributeValue>>) -> Option<KeyView> {
    match k {
        Some(v) => Some(values_view(v@)),
        None => None,
    }
}

/// The views of a sequence of optional keys, in order.
pub open spec fn keys_view(s: Seq<Option<Vec<AttributeValue>>>) -> Seq<Option<KeyView>> {
    Seq::new(s.len(), |i: int| key_view(s[i]))
}

/// The keys of a list of children, in order.
fn child_keys(children: &Vec<Node>) -> (r: Vec<Option<Vec<AttributeValue>>>)
    ensures
        r.len() == children.len(),
        keys_view(r@) == keys_of(nodes_view(children@)),
{
    let mut out: Vec<Option<Vec<AttributeValue>>> = Vec::new();
    let mut i: usize = 0;
    while i < children.len()
        invariant
            i <= children.len(),
            out.len() == i,
            forall|k: int| 0 <= k < i ==> key_view(out@[k]) == key_of(children@[k]@),
        decreases children.len() - i,
    {
        out.push(node_key(&children[i]));
        i += 1;
    }
    assert(keys_view(out@) =~= keys_of(nodes_view(children@)));
    out
}

/// Whether one of the keys is there.
fn has_key(keys: &Vec<Option<Vec<AttributeValue>>>) -> (r: bool)
    ensures
        r == (exists|i: int| 0 <= i < keys.len() && (#[trigger] keys_view(keys@)[i]).is_some()),
{
    let mut i: usize = 0;
    while i < keys.len()
        invariant
            i <= keys.len(),
            forall|k: int| 0 <= k < i ==> (#[trigger] keys_view(keys@)[k]).is_none(),
        decreases keys.len() - i,
    {
        if keys[i].is_some() {
            assert(keys_view(keys@)[i as int].is_some());
            return true;
        }
        i += 1;
    }
    false
}

/// The first position that holds `key`, if there is one.
fn find_key(keys: &Vec<Option<Vec<AttributeValue>>>, key: &Vec<AttributeValue>) -> (r: Option<
    usize,
>)
    ensures
        match r {
            Some(j) => j < keys.len() && key_index(keys_view(keys@), values_view(key@), 0) == j,
            None => key_index(keys_view(keys@), values_view(key@), 0) == -1,
        },
{
    let mut i: usize = 0;
    while i < keys.len()
        invariant
            i <= keys.len(),
            key_index(keys_view(keys@), values_view(key@), 0) == key_index(
                keys_view(keys@),
                values_view(key@),
                i as int,
            ),
        decreases keys.len() - i,
    {
        let hit = match &keys[i] {
            Some(k) => same_values(k, key),
            None => false,
        };
        assert(hit == (keys_view(keys@)[i as int] == Some(values_view(key@))));
        if hit {
            return Some(i);
        }
        i += 1;
    }
    None
}

/// The tag of a node, owned, where it is an element.
fn owned_tag(n: &Node) -> (r: Option<String>)
    ensures
        crate::vdom::attribute::opt_str_view(r) == tag_of(n@),
{
    match n {
        Node::Element(e) => Some(e.tag.clone()),
        Node::Text(_) => None,
    }
}

/// The patch that takes the child at `i` out.
fn removal_patch(children: &Vec<Node>, path: &TreePath, i: usize) -> (r: Patch)
    requires
        i < children.len(),
    ensures
        r@ == removal(nodes_view(children@), path@, i as int),
{
    Patch { tag: owned_tag(&children[i]), path: path.traverse(i), kind: PatchKind::RemoveNode }
}

/// The patches that turn `old`, which stands at `path`, into `new`.
pub fn diff_recursive(old: &Node, new: &Node, path: &TreePath) -> (r: Vec<Patch>)
    ensures
        patches_view(r@) == diff_node(old@, new@, path@),
    decreases new, 0nat,
{
    let mut out: Vec<Patch> = Vec::new();
    match (old, new) {
        (Node::Text(a), Node::Text(b)) => {
            if a.text != b.text {
                out.push(Patch::change_text(a.clone(), path.clone(), b.clone()));
            }
            assert(patches_view(out@) =~= diff_node(old@, new@, path@));
            out
        },
        (Node::Element(a), Node::Element(b)) => {
            proof {
                lemma_element_view(*a);
                lemma_element_view(*b);
            }
            if a.tag != b.tag || !same_listener_names(&a.attrs, &b.attrs) {
                out.push(
                    Patch {
                        tag: Some(a.tag.clone()),
                        path: path.clone(),
                        kind: PatchKind::ReplaceNode(new.clone()),
                    },
                );
                assert(patches_view(out@) =~= diff_node(old@, new@, path@));
                out
            } else {
                let mut first = diff_attributes(a, b, path);
                let mut second = diff_element_children(a, b, path);
                let ghost fv = patches_view(first@);
                let ghost sv = patches_view(second@);
                out.append(&mut first);
                out.append(&mut second);
                assert(patches_view(out@) =~= fv + sv);
                out
            }
        },
        _ => {
            out.push(
                Patch { tag: owned_tag(old), path: path.clone(), kind: PatchKind::ReplaceNode(new.clone()) },
            );
            assert(patches_view(out@) =~= diff_node(old@, new@, path@));
            out
        },
    }
}

/// The patches for the children of two elements of one tag.
pub fn diff_element_children(old: &Element, new: &Element, path: &TreePath) -> (r: Vec<Patch>)
    ensures
        patches_view(r@) == diff_children(old@.tag, old@.children, new@.children, path@),
    decreases new, 1nat,
{
    let old_keys = child_keys(&old.children);
    let new_keys = child_keys(&new.children);
    let ghost oc = nodes_view(old.children@);
    let ghost nc = nodes_view(new.children@);
    let keyed_old = has_key(&old_keys);
    let keyed_new = has_key(&new_keys);
    proof {
        assert(keyed_old == any_keyed(oc)) by {
            if keyed_old {
                let i = choose|i: int| 0 <= i < old_keys.len() && (#[trigger] keys_view(old_keys@)[i]).is_some();
                assert(keys_of(oc)[i] == key_of(oc[i]));
            }
            if any_keyed(oc) {
                let i = choose|i: int| 0 <= i < oc.len() && key_of(#[trigger] oc[i]).is_some();
                assert(keys_of(oc)[i] == key_of(oc[i]));
                assert(keys_view(old_keys@)[i].is_some());
            }
        }
        assert(keyed_new == any_keyed(nc)) by {
            if keyed_new {
                let i = choose|i: int| 0 <= i < new_keys.len() && (#[trigger] keys_view(new_keys@)[i]).is_some();
                assert(keys_of(nc)[i] == key_of(nc[i]));
            }
            if any_keyed(nc) {
                let i = choose|i: int| 0 <= i < nc.len() && key_of(#[trigger] nc[i]).is_some();
                assert(keys_of(nc)[i] == key_of(nc[i]));
                assert(keys_view(new_keys@)[i].is_some());
            }
        }
    }
    let mut out: Vec<Patch> = Vec::new();
    if keyed_old || keyed_new {
        let mut j: usize = 0;
        assert(patches_view(out@) + keyed_matches(oc, nc, path@, 0) =~= keyed_matches(oc, nc, path@, 0));
        while j < new.children.len()
            invariant
                j <= new.children.len(),
                oc == nodes_view(old.children@),
                nc == nodes_view(new.children@),
                old_keys.len() == old.children.len(),
                new_keys.len() == new.children.len(),
                keys_view(old_keys@) == keys_of(oc),
                keys_view(new_keys@) == keys_of(nc),
                patches_view(out@) + keyed_matches(oc, nc, path@, j as int) == keyed_matches(
                    oc,
                    nc,
                    path@,
                    0,
                ),
            decreases new.children.len() - j,
        {
            let ghost before = patches_view(out@);
            let ghost rest = keyed_matches(oc, nc, path@, j as int + 1);
            let mut mate: Option<usize> = None;
            match &new_keys[j] {
                Some(k) => {
                    assert(keys_view(new_keys@)[j as int] == Some(values_view(k@)));
                    let first = find_key(&new_keys, k);
                    if first == Some(j) {
                        mate = find_key(&old_keys, k);
                    }
                },
                None => {
                    assert(keys_view(new_keys@)[j as int].is_none());
                },
            }
            assert(match mate {
                Some(i) => partner(oc, nc, j as int) == i && i < old.children.len(),
                None => partner(oc, nc, j as int) == -1,
            });
            match mate {
                Some(i) => {
                    let at = path.traverse(i);
                    let mut sub = diff_recursive(&old.children[i], &new.children[j], &at);
                    let ghost sv = patches_view(sub@);
                    out.append(&mut sub);
                    assert(patches_view(out@) =~= before + sv);
                    assert(before + sv + rest =~= before + (sv + rest));
                },
                None => {
                    assert(before + rest =~= before + (Seq::<PatchView>::empty() + rest));
                },
            }
            j += 1;
        }
        let ghost matches = patches_view(out@);
        assert(matches =~= keyed_matches(oc, nc, path@, 0)) by {
            assert(keyed_matches(oc, nc, path@, j as int) =~= Seq::<PatchView>::empty());
        }
        let mut i: usize = 0;
        assert(matches + keyed_removals(oc, nc, path@, 0) == diff_children(old@.tag, oc, nc, path@));
        while i < old.children.len()
            invariant
                i <= old.children.len(),
                oc == nodes_view(old.children@),
                nc == nodes_view(new.children@),
                old_keys.len() == old.children.len(),
                new_keys.len() == new.children.len(),
                keys_view(old_keys@) == keys_of(oc),
                keys_view(new_keys@) == keys_of(nc),
                patches_view(out@) + keyed_removals(oc, nc, path@, i as int) == matches
                    + keyed_removals(oc, nc, path@, 0),
            decreases old.children.len() - i,
        {
            let ghost before = patches_view(out@);
            let ghost rest = keyed_removals(oc, nc, path@, i as int + 1);
            let gone = match &old_keys[i] {
                Some(k) => {
                    assert(keys_view(old_keys@)[i as int] == Some(values_view(k@)));
                    find_key(&new_keys, k).is_none()
                },
                None => {
                    assert(keys_view(old_keys@)[i as int].is_none());
                    false
                },
            };
            assert(gone == leaves(oc, nc, i as int));
            if gone {
                out.push(removal_patch(&old.children, path, i));
                assert(patches_view(out@) =~= before + seq![removal(oc, path@, i as int)]);
                assert(before + seq![removal(oc, path@, i as int)] + rest =~= before + (seq![
                    removal(oc, path@, i as int),
                ] + rest));
            }
            i += 1;
        }
        assert(patches_view(out@) =~= patches_view(out@) + keyed_removals(oc, nc, path@, i as int));
        out
    } else {
        let shared = if old.children.len() <= new.children.len() {
            old.children.len()
        } else {
            new.children.len()
        };
        let mut i: usize = 0;
        assert(patches_view(out@) + positional_pairs(oc, nc, path@, 0) =~= positional_pairs(
            oc,
            nc,
            path@,
            0,
        ));
        while i < shared
            invariant
                i <= shared,
                shared == shorter(oc.len() as int, nc.len() as int),
                oc == nodes_view(old.children@),
                nc == nodes_view(new.children@),
                patches_view(out@) + positional_pairs(oc, nc, path@, i as int) == positional_pairs(
                    oc,
                    nc,
                    path@,
                    0,
                ),
            decreases shared - i,
        {
            let ghost before = patches_view(out@);
            let ghost rest = positional_pairs(oc, nc, path@, i as int + 1);
            let at = path.traverse(i);
            let mut sub = diff_recursive(&old.children[i], &new.children[i], &at);
            let ghost sv = patches_view(sub@);
            out.append(&mut sub);
            assert(patches_view(out@) =~= before + sv);
            assert(before + sv + rest =~= before + (sv + rest));
            i += 1;
        }
        let ghost pairs = patches_view(out@);
        assert(pairs =~= positional_pairs(oc, nc, path@, 0)) by {
            assert(positional_pairs(oc, nc, path@, i as int) =~= Seq::<PatchView>::empty());
        }
        if new.children.len() > old.children.len() {
            let mut added: Vec<Node> = Vec::new();
            let mut k: usize = old.children.len();
            while k < new.children.len()
                invariant
                    old.children.len() <= k <= new.children.len(),
                    nc == nodes_view(new.children@),
                    nodes_view(added@) == nc.subrange(old.children.len() as int, k as int),
                decreases new.children.len() - k,
            {
                let ghost prev = nodes_view(added@);
                added.push(new.children[k].clone());
                assert(nodes_view(added@) =~= prev.push(nc[k as int]));
                assert(nc.subrange(old.children.len() as int, k as int + 1) =~= nc.subrange(
                    old.children.len() as int,
                    k as int,
                ).push(nc[k as int]));
                k += 1;
            }
            out.push(
                Patch {
                    tag: Some(old.tag.clone()),
                    path: path.clone(),
                    kind: PatchKind::AppendChildren(added),
                },
            );
            assert(patches_view(out@) =~= diff_children(old@.tag, oc, nc, path@));
            out
        } else {
            let mut k: usize = new.children.len();
            assert(pairs + trailing_removals(oc, path@, k as int) == diff_children(
                old@.tag,
                oc,
                nc,
                path@,
            ));
            while k < old.children.len()
                invariant
                    new.children.len() <= k <= old.children.len(),
                    oc == nodes_view(old.children@),
                    patches_view(out@) + trailing_removals(oc, path@, k as int) == pairs
                        + trailing_removals(oc, path@, new.children.len() as int),
                decreases old.children.len() - k,
            {
                let ghost before = patches_view(out@);
                let ghost rest = trailing_removals(oc, path@, k as int + 1);
                out.push(removal_patch(&old.children, path, k));
                assert(patches_view(out@) =~= before + seq![removal(oc, path@, k as int)]);
                assert(before + seq![removal(oc, path@, k as int)] + rest =~= before + (seq![
                    removal(oc, path@, k as int),
                ] + rest));
                k += 1;
            }
            assert(patches_view(out@) =~= patches_view(out@) + trailing_removals(oc, path@, k as int));
            out
        }
    }
}

/// The patches that turn the tree `old` into the tree `new`, in the order in
/// which they are to be applied.
pub fn diff(old: &Node, new: &Node) -> (r: Vec<Patch>)
    ensures
        patches_view(r@) == diff_trees(old@, new@),
{
    let root = TreePath::root();
    diff_recursive(old, new, &root)
}

} // verus!

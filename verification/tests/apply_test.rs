use sauron_core::diff::engine::diff;
use sauron_core::dom::apply::patch;
use sauron_core::dom::dom_updater::DomUpdater;
use sauron_core::dom::edit::{Edit, Mutation};
use sauron_core::dom::error::PatchError;
use sauron_core::dom::live::{Listener, LiveElement, LiveNode, LiveText};
use sauron_core::dom::locate::resolve_path;
use sauron_core::dom::materialize::materialize;
use sauron_core::dom::registry::ActiveClosure;
use sauron_core::vdom::attribute::Attribute;
use sauron_core::vdom::html::{
    article, attr, b, class, classes, div, id, input, key, on_click, on_input, section, span, text,
};
use sauron_core::vdom::node::{Node, Text};
use sauron_core::vdom::patch::Patch;
use sauron_core::vdom::path::TreePath;
use sauron_core::vdom::value::Callback;

fn mount_point() -> LiveNode {
    LiveNode::Text(LiveText { id: 0, text: String::new() })
}

fn sorted_attrs(attrs: &Vec<Attribute>) -> Vec<String> {
    let mut out: Vec<String> = attrs.iter().map(|a| format!("{:?}", a)).collect();
    out.sort();
    out
}

fn sorted_events(listeners: &Vec<Listener>) -> Vec<String> {
    let mut out: Vec<String> = listeners.iter().map(|l| l.event.clone()).collect();
    out.sort();
    out.dedup();
    out
}

/// Whether two live trees have the same structure, attributes and events,
/// whatever the identities of their nodes are.
fn same_shape(a: &LiveNode, b: &LiveNode) -> bool {
    match (a, b) {
        (LiveNode::Text(x), LiveNode::Text(y)) => x.text == y.text,
        (LiveNode::Element(x), LiveNode::Element(y)) => {
            x.tag == y.tag
                && sorted_attrs(&x.attrs) == sorted_attrs(&y.attrs)
                && sorted_events(&x.listeners) == sorted_events(&y.listeners)
                && x.children.len() == y.children.len()
                && x.children.iter().zip(y.children.iter()).all(|(p, q)| same_shape(p, q))
        }
        _ => false,
    }
}

fn count_listeners(n: &LiveNode) -> usize {
    match n {
        LiveNode::Text(_) => 0,
        LiveNode::Element(e) => {
            e.listeners.len() + e.children.iter().map(count_listeners).sum::<usize>()
        }
    }
}

fn fresh(n: &Node) -> LiveNode {
    materialize(n, 0).expect("identities suffice").0
}

fn converges(old: Node, new: Node) {
    let expected = fresh(&new);
    let mut updater =
        DomUpdater::new_append_to_mount(old, &mount_point()).expect("mounting succeeds");
    assert_eq!(updater.active_closure_len(), count_listeners(&updater.root_node));
    updater.update_dom(new).expect("patching succeeds");
    assert!(same_shape(&updater.root_node, &expected));
    assert_eq!(updater.active_closure_len(), count_listeners(&updater.root_node));
}

#[test]
fn materialize_hands_out_identities_in_document_order() {
    let tree = div(vec![class("a")], vec![span(vec![], vec![text("x")]), text("y")]);
    let (live, next) = materialize(&tree, 10).expect("identities suffice");
    assert_eq!(next, 14);
    let expected = LiveNode::Element(LiveElement {
        id: 10,
        namespace: None,
        tag: "div".to_string(),
        attrs: vec![class("a")],
        listeners: vec![],
        children: vec![
            LiveNode::Element(LiveElement {
                id: 11,
                namespace: None,
                tag: "span".to_string(),
                attrs: vec![],
                listeners: vec![],
                children: vec![LiveNode::Text(LiveText { id: 12, text: "x".to_string() })],
            }),
            LiveNode::Text(LiveText { id: 13, text: "y".to_string() }),
        ],
    });
    assert_eq!(live, expected);
}

#[test]
fn materialize_folds_attributes_and_attaches_listeners() {
    let tree = div(
        vec![class("a"), on_click(Callback::new(5)), class("b"), on_input(Callback::new(6))],
        vec![],
    );
    let (live, next) = materialize(&tree, 0).expect("identities suffice");
    assert_eq!(next, 1);
    let expected = LiveNode::Element(LiveElement {
        id: 0,
        namespace: None,
        tag: "div".to_string(),
        attrs: vec![classes(&["a", "b"])],
        listeners: vec![
            Listener { event: "click".to_string(), callback: Callback::new(5) },
            Listener { event: "input".to_string(), callback: Callback::new(6) },
        ],
        children: vec![],
    });
    assert_eq!(live, expected);
}

#[test]
fn materialize_fails_when_identities_run_out() {
    let tree = div(vec![], vec![text("x")]);
    assert!(materialize(&tree, u64::MAX - 1).is_none());
    assert!(materialize(&tree, u64::MAX - 2).is_some());
}

#[test]
fn resolve_follows_child_ordinals() {
    let live = fresh(&div(vec![], vec![span(vec![], vec![text("x")]), text("y")]));
    assert_eq!(resolve_path(&live, &TreePath::new(vec![0])), Some(0));
    assert_eq!(resolve_path(&live, &TreePath::new(vec![0, 0])), Some(1));
    assert_eq!(resolve_path(&live, &TreePath::new(vec![0, 0, 0])), Some(2));
    assert_eq!(resolve_path(&live, &TreePath::new(vec![0, 1])), Some(3));
    assert_eq!(resolve_path(&live, &TreePath::new(vec![0, 2])), None);
    assert_eq!(resolve_path(&live, &TreePath::new(vec![1])), None);
    assert_eq!(resolve_path(&live, &TreePath::new(vec![])), None);
}

#[test]
fn no_patch_for_the_same_tree() {
    let tree = || {
        section(
            vec![class("todo"), on_click(Callback::new(1))],
            vec![
                article(vec![key(1)], vec![text("item1")]),
                article(vec![key(1)], vec![text("other")]),
                article(vec![key(2), class("x"), class("y")], vec![text("item2")]),
            ],
        )
    };
    assert_eq!(diff(&tree(), &tree()), vec![]);
}

#[test]
fn update_converges_on_attribute_changes() {
    converges(
        div(vec![id("a"), class("x"), attr("title", "t")], vec![]),
        div(vec![class("y"), class("z"), id("a")], vec![]),
    );
}

#[test]
fn update_converges_on_truncation() {
    let child = |n: &str| div(vec![class(n)], vec![]);
    converges(
        div(
            vec![],
            vec![
                child("class1"),
                child("class2"),
                child("class3"),
                child("class4"),
                child("class5"),
                child("class6"),
                child("class7"),
            ],
        ),
        div(vec![], vec![child("class5"), child("class6"), child("class7")]),
    );
}

#[test]
fn update_converges_on_appended_children() {
    converges(
        div(vec![], vec![b(vec![], vec![])]),
        div(vec![], vec![b(vec![], vec![text("1")]), span(vec![on_click(Callback::new(2))], vec![])]),
    );
}

#[test]
fn update_converges_on_keyed_removal_and_text_change() {
    converges(
        section(
            vec![class("todo")],
            vec![
                article(vec![key(1)], vec![text("item1")]),
                article(vec![key(2)], vec![text("item2")]),
                article(vec![key(3)], vec![text("item3")]),
            ],
        ),
        section(
            vec![class("todo")],
            vec![
                article(vec![key(2)], vec![text("item2")]),
                article(vec![key(3)], vec![text("item3 with changes")]),
            ],
        ),
    );
}

#[test]
fn update_converges_on_replaced_listener_shape() {
    converges(
        div(
            vec![],
            vec![
                input(vec![id("x"), on_input(Callback::new(1)), on_click(Callback::new(2))], vec![]),
                span(vec![on_click(Callback::new(3))], vec![text("a")]),
            ],
        ),
        div(vec![], vec![input(vec![id("x")], vec![]), text("b")]),
    );
}

#[test]
fn registry_follows_the_tree() {
    let old = div(
        vec![on_click(Callback::new(1))],
        vec![
            span(vec![on_click(Callback::new(2)), on_input(Callback::new(3))], vec![]),
            span(vec![on_click(Callback::new(4))], vec![]),
        ],
    );
    let mut updater =
        DomUpdater::new_append_to_mount(old, &mount_point()).expect("mounting succeeds");
    assert_eq!(updater.active_closure_len(), 4);
    let new = div(vec![on_click(Callback::new(1))], vec![span(vec![], vec![])]);
    let log = updater.update_dom(new).expect("patching succeeds");
    assert_eq!(log.len(), 2);
    assert_eq!(updater.active_closure_len(), 1);
    assert_eq!(count_listeners(&updater.root_node), 1);
    let last = div(vec![], vec![]);
    updater.update_dom(last).expect("patching succeeds");
    assert_eq!(updater.active_closure_len(), 0);
}

#[test]
fn update_reports_each_edit_with_its_target() {
    let old = div(vec![], vec![text("a"), span(vec![], vec![])]);
    let mut updater =
        DomUpdater::new_append_to_mount(old, &mount_point()).expect("mounting succeeds");
    let new = div(vec![id("x")], vec![text("b")]);
    let log = updater.update_dom(new).expect("patching succeeds");
    assert_eq!(
        log,
        vec![
            Mutation { target: 0, edit: Edit::SetAttributes(vec![id("x")]) },
            Mutation { target: 1, edit: Edit::SetText("b".to_string()) },
            Mutation { target: 2, edit: Edit::Remove },
        ]
    );
}

#[test]
fn replaced_nodes_get_fresh_identities() {
    let old = div(vec![], vec![b(vec![], vec![])]);
    let mut updater =
        DomUpdater::new_append_to_mount(old, &mount_point()).expect("mounting succeeds");
    assert_eq!(updater.next_id, 2);
    let new = div(vec![], vec![span(vec![], vec![text("x")])]);
    updater.update_dom(new).expect("patching succeeds");
    assert_eq!(updater.next_id, 4);
    assert_eq!(resolve_path(&updater.root_node, &TreePath::new(vec![0, 0])), Some(2));
    assert_eq!(resolve_path(&updater.root_node, &TreePath::new(vec![0, 0, 0])), Some(3));
}

#[test]
fn stale_path_fails_and_changes_nothing() {
    let mut root = fresh(&div(vec![], vec![text("a")]));
    let before = fresh(&div(vec![], vec![text("a")]));
    let mut registry = ActiveClosure::new();
    let mut focus: Option<u64> = None;
    let mut next: u64 = 2;
    let patches = vec![
        Patch::change_text(Text::new("a"), TreePath::new(vec![0, 0]), Text::new("b")),
        Patch::remove_node(None, TreePath::new(vec![0, 4])),
    ];
    let r = patch(&mut root, &mut registry, &mut focus, &mut next, &patches);
    assert_eq!(r, Err(PatchError::PathResolutionFailure));
    assert_eq!(root, before);
}

#[test]
fn patch_on_a_removed_node_fails_after_the_removal() {
    let mut root = fresh(&div(vec![], vec![text("a"), text("b")]));
    let mut registry = ActiveClosure::new();
    let mut focus: Option<u64> = None;
    let mut next: u64 = 3;
    let patches = vec![
        Patch::remove_node(None, TreePath::new(vec![0, 0])),
        Patch::change_text(Text::new("a"), TreePath::new(vec![0, 0]), Text::new("c")),
    ];
    let r = patch(&mut root, &mut registry, &mut focus, &mut next, &patches);
    assert_eq!(r, Err(PatchError::PathResolutionFailure));
    assert!(same_shape(&root, &fresh(&div(vec![], vec![text("b")]))));
}

#[test]
fn patch_of_the_wrong_kind_fails() {
    let mut root = fresh(&div(vec![], vec![text("a")]));
    let mut registry = ActiveClosure::new();
    let mut focus: Option<u64> = None;
    let mut next: u64 = 2;
    let patches =
        vec![Patch::change_text(Text::new("a"), TreePath::new(vec![0]), Text::new("b"))];
    let r = patch(&mut root, &mut registry, &mut focus, &mut next, &patches);
    assert_eq!(r, Err(PatchError::BackendMutationFailure));
    let patches = vec![Patch::add_attributes("div", TreePath::new(vec![0, 0]), vec![id("x")])];
    let r = patch(&mut root, &mut registry, &mut focus, &mut next, &patches);
    assert_eq!(r, Err(PatchError::BackendMutationFailure));
    assert_eq!(root, fresh(&div(vec![], vec![text("a")])));
}

#[test]
fn removing_the_root_fails() {
    let mut root = fresh(&div(vec![], vec![]));
    let mut registry = ActiveClosure::new();
    let mut focus: Option<u64> = None;
    let mut next: u64 = 1;
    let patches = vec![Patch::remove_node(Some("div"), TreePath::new(vec![0]))];
    let r = patch(&mut root, &mut registry, &mut focus, &mut next, &patches);
    assert_eq!(r, Err(PatchError::BackendMutationFailure));
}

#[test]
fn replacing_fails_when_identities_run_out() {
    let mut root = fresh(&div(vec![], vec![]));
    let mut registry = ActiveClosure::new();
    let mut focus: Option<u64> = None;
    let mut next: u64 = u64::MAX;
    let patches =
        vec![Patch::replace_node(Some("div"), TreePath::new(vec![0]), span(vec![], vec![]))];
    let r = patch(&mut root, &mut registry, &mut focus, &mut next, &patches);
    assert_eq!(r, Err(PatchError::BackendMutationFailure));
    assert_eq!(next, u64::MAX);
}

#[test]
fn releasing_an_unknown_handle_fails() {
    let mut registry = ActiveClosure::new();
    let listener = Listener { event: "click".to_string(), callback: Callback::new(1) };
    assert_eq!(registry.release(3, &listener), Err(PatchError::RegistryInconsistency));
    registry.register(3, &listener);
    assert_eq!(registry.len(), 1);
    assert_eq!(registry.release(4, &listener), Err(PatchError::RegistryInconsistency));
    assert_eq!(registry.release(3, &listener), Ok(()));
    assert_eq!(registry.len(), 0);
    assert_eq!(registry.release(3, &listener), Err(PatchError::RegistryInconsistency));
}

#[test]
fn listeners_can_be_added_and_removed_by_patches() {
    let mut updater = DomUpdater::new_append_to_mount(div(vec![id("a")], vec![]), &mount_point())
        .expect("mounting succeeds");
    updater
        .patch_dom(vec![Patch::add_attributes(
            "div",
            TreePath::new(vec![0]),
            vec![on_click(Callback::new(9)), class("c")],
        )])
        .expect("patching succeeds");
    assert_eq!(updater.active_closure_len(), 1);
    assert_eq!(count_listeners(&updater.root_node), 1);
    updater
        .patch_dom(vec![Patch::remove_attributes(
            "div",
            TreePath::new(vec![0]),
            vec![on_click(Callback::new(0)), id("a")],
        )])
        .expect("patching succeeds");
    assert_eq!(updater.active_closure_len(), 0);
    assert!(same_shape(&updater.root_node, &fresh(&div(vec![class("c")], vec![]))));
}

#[test]
fn focus_moves_to_the_counterpart_of_a_replaced_node() {
    let old = div(vec![], vec![input(vec![on_input(Callback::new(1))], vec![])]);
    let mut updater =
        DomUpdater::new_append_to_mount(old, &mount_point()).expect("mounting succeeds");
    updater.focused_node = Some(1);
    let new = div(vec![], vec![input(vec![], vec![])]);
    updater.update_dom(new).expect("patching succeeds");
    assert_eq!(updater.focused_node, Some(2));
}

#[test]
fn focus_is_lost_when_the_replacement_has_another_tag() {
    let old = div(vec![], vec![input(vec![], vec![])]);
    let mut updater =
        DomUpdater::new_append_to_mount(old, &mount_point()).expect("mounting succeeds");
    updater.focused_node = Some(1);
    let new = div(vec![], vec![span(vec![], vec![])]);
    updater.update_dom(new).expect("patching succeeds");
    assert_eq!(updater.focused_node, None);
}

#[test]
fn focus_is_lost_when_its_node_is_removed() {
    let old = div(vec![], vec![span(vec![], vec![input(vec![], vec![])]), b(vec![], vec![])]);
    let mut updater =
        DomUpdater::new_append_to_mount(old, &mount_point()).expect("mounting succeeds");
    updater.focused_node = Some(2);
    let new = div(vec![], vec![]);
    updater.update_dom(new).expect("patching succeeds");
    assert_eq!(updater.focused_node, None);
}

#[test]
fn focus_stays_on_an_untouched_node() {
    let old = div(vec![], vec![input(vec![], vec![]), b(vec![], vec![])]);
    let mut updater =
        DomUpdater::new_append_to_mount(old, &mount_point()).expect("mounting succeeds");
    updater.focused_node = Some(1);
    let new = div(vec![], vec![input(vec![id("x")], vec![])]);
    updater.update_dom(new).expect("patching succeeds");
    assert_eq!(updater.focused_node, Some(1));
}

#[test]
fn mounting_fails_when_identities_run_out() {
    let mut updater = DomUpdater::new(div(vec![], vec![]), &mount_point());
    updater.next_id = u64::MAX;
    assert_eq!(updater.append_to_mount(), Err(PatchError::BackendMutationFailure));
    assert_eq!(updater.root_node(), mount_point());
    updater.next_id = 7;
    assert_eq!(updater.replace_mount(), Ok(()));
    assert_eq!(updater.root_node(), materialize(&div(vec![], vec![]), 7).expect("fits").0);
    assert_eq!(updater.next_id, 8);
}

#[test]
fn root_replace() {
    let old: Node = div(vec![], vec![]);
    let new: Node = span(vec![], vec![]);
    assert_eq!(
        diff(&old, &new),
        vec![Patch::replace_node(Some("div"), TreePath::new(vec![0]), span(vec![], vec![]))]
    );
    converges(old, new);
}

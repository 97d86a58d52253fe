use sauron_core::diff::diff;
use sauron_core::diff::engine::{diff_attributes, node_key, same_listener_names};
use sauron_core::vdom::attribute::{find_name, merge_attributes, same_attributes, Attribute};
use sauron_core::vdom::html::{
    attr, class, classes, div, html_element, id, input, key, on, on_click, style, styles,
    styles_flag, text,
};
use sauron_core::vdom::node::{Element, Node, Text};
use sauron_core::vdom::patch::{Patch, PatchKind};
use sauron_core::vdom::path::TreePath;
use sauron_core::vdom::value::{AttributeValue, Callback, Style, Value};

fn plain(s: &str) -> AttributeValue {
    AttributeValue::from_value(Value::from_str(s))
}

#[test]
fn paths_grow_by_one_ordinal() {
    let root = TreePath::root();
    assert_eq!(root, TreePath::new(vec![0]));
    let child = root.traverse(3);
    assert_eq!(child, TreePath::new(vec![0, 3]));
    assert_eq!(child.traverse(0).path, vec![0, 3, 0]);
    assert_eq!(child.clone(), child);
    assert_eq!(root.path, vec![0]);
}

#[test]
fn values_compare_by_content() {
    assert!(Value::from_str("a").same(&Value::Str("a".to_string())));
    assert!(!Value::from_str("1").same(&Value::Int(1)));
    assert!(Value::Int(2).same(&Value::Int(2).clone()));
    assert!(!Value::Bool(true).same(&Value::Bool(false)));
    assert!(Style::new("display", "none").same(&Style::new("display", "none")));
    assert!(!Style::new("display", "none").same(&Style::new("display", "block")));
    let listener = AttributeValue::EventListener(Callback::new(4));
    assert!(listener.is_event());
    assert!(listener.same(&AttributeValue::EventListener(Callback::new(4))));
    assert!(!listener.same(&AttributeValue::EventListener(Callback::new(5))));
    assert!(!listener.same(&AttributeValue::FunctionValue(Callback::new(4))));
    assert!(!plain("x").is_event());
    assert!(plain("x").same(&plain("x").clone()));
    let sheet = AttributeValue::Style(vec![Style::new("a", "b")]);
    assert!(sheet.same(&sheet.clone()));
    assert!(!sheet.same(&AttributeValue::Style(vec![])));
}

#[test]
fn attributes_are_folded_by_name_in_the_order_of_first_occurrence() {
    let declared = vec![
        class("a"),
        id("x"),
        class("b"),
        on_click(Callback::new(1)),
        classes(&["c", "d"]),
        on_click(Callback::new(2)),
    ];
    let folded = merge_attributes(&declared);
    let expected = vec![
        Attribute::with_multiple_values(
            None,
            "class",
            vec![plain("a"), plain("b"), plain("c"), plain("d")],
        ),
        id("x"),
        Attribute::with_multiple_values(
            None,
            "click",
            vec![
                AttributeValue::EventListener(Callback::new(1)),
                AttributeValue::EventListener(Callback::new(2)),
            ],
        ),
    ];
    assert_eq!(folded, expected);
    assert!(same_attributes(&folded, &expected));
    assert!(!same_attributes(&folded, &declared));
    assert_eq!(find_name(&declared, &"class".to_string()), Some(0));
    assert_eq!(find_name(&declared, &"click".to_string()), Some(3));
    assert_eq!(find_name(&declared, &"style".to_string()), None);
    assert!(folded[2].is_event());
    assert!(!folded[0].is_event());
    assert!(folded[0].same(&folded[0].clone()));
    assert_eq!(merge_attributes(&vec![]), vec![]);
}

#[test]
fn folding_keeps_the_namespace_of_the_first_declaration() {
    let declared = vec![
        Attribute::new(Some("xlink"), "href", plain("a")),
        Attribute::new(None, "href", plain("b")),
    ];
    let folded = merge_attributes(&declared);
    assert_eq!(
        folded,
        vec![Attribute::with_multiple_values(Some("xlink"), "href", vec![plain("a"), plain("b")])]
    );
}

#[test]
fn two_class_declarations_are_set_as_one_attribute() {
    let old: Node = div(vec![class("class1"), class("class2")], vec![]);
    let new: Node = div(vec![class("class1"), class("difference_class")], vec![]);
    let patches = diff(&old, &new);
    assert_eq!(patches.len(), 1);
    match &patches[0].kind {
        PatchKind::AddAttributes(attrs) => {
            assert_eq!(attrs, &vec![classes(&["class1", "difference_class"])]);
        }
        other => panic!("unexpected patch {:?}", other),
    }
    assert_eq!(patches[0].path, TreePath::new(vec![0]));
    assert_eq!(patches[0].tag, Some("div".to_string()));
}

#[test]
fn attribute_patches_set_before_they_unset() {
    let old = Element::new(None, "div", vec![id("a"), attr("title", "t")], vec![], false);
    let new = Element::new(None, "div", vec![id("b"), class("c")], vec![], false);
    let patches = diff_attributes(&old, &new, &TreePath::new(vec![0, 2]));
    assert_eq!(
        patches,
        vec![
            Patch::add_attributes("div", TreePath::new(vec![0, 2]), vec![id("b"), class("c")]),
            Patch::remove_attributes("div", TreePath::new(vec![0, 2]), vec![attr("title", "t")]),
        ]
    );
    assert_eq!(patches[0].path(), &TreePath::new(vec![0, 2]));
}

#[test]
fn listeners_are_compared_by_event_alone() {
    let a = vec![on_click(Callback::new(1)), id("x")];
    let b = vec![class("y"), on("click", Callback::new(2))];
    let c = vec![on("input", Callback::new(1))];
    assert!(same_listener_names(&a, &b));
    assert!(!same_listener_names(&a, &c));
    assert!(same_listener_names(&vec![], &vec![id("x")]));
    let old: Node = div(a, vec![]);
    let new: Node = div(vec![on_click(Callback::new(2)), id("x")], vec![]);
    assert_eq!(diff(&old, &new), vec![]);
}

#[test]
fn a_new_listener_replaces_the_element() {
    let old: Node = div(vec![id("x")], vec![text("a")]);
    let new: Node = div(vec![id("x"), on_click(Callback::new(1))], vec![text("b")]);
    assert_eq!(
        diff(&old, &new),
        vec![Patch::replace_node(
            Some("div"),
            TreePath::new(vec![0]),
            div(vec![id("x"), on_click(Callback::new(1))], vec![text("b")]),
        )]
    );
}

#[test]
fn text_and_element_replace_each_other() {
    let old: Node = text("a");
    let new: Node = div(vec![], vec![]);
    assert_eq!(
        diff(&old, &new),
        vec![Patch::replace_node(None, TreePath::new(vec![0]), div(vec![], vec![]))]
    );
    assert_eq!(
        diff(&new, &old),
        vec![Patch::replace_node(Some("div"), TreePath::new(vec![0]), text("a"))]
    );
    assert_eq!(diff(&old, &text("a")), vec![]);
}

#[test]
fn keys_are_the_values_of_the_folded_key_attribute() {
    assert_eq!(node_key(&text("a")), None);
    assert_eq!(node_key(&div(vec![id("x")], vec![])), None);
    assert_eq!(
        node_key(&div(vec![key(7)], vec![])),
        Some(vec![AttributeValue::Plain(Value::Int(7))])
    );
    assert_eq!(
        node_key(&div(vec![key(7), id("x"), key(8)], vec![])),
        Some(vec![AttributeValue::Plain(Value::Int(7)), AttributeValue::Plain(Value::Int(8))])
    );
}

#[test]
fn keyed_children_are_compared_at_the_place_of_the_old_child() {
    let old: Node = div(
        vec![],
        vec![
            div(vec![key(1)], vec![text("a")]),
            text("between"),
            div(vec![key(2)], vec![text("b")]),
            div(vec![key(3)], vec![text("c")]),
        ],
    );
    let new: Node = div(
        vec![],
        vec![
            div(vec![key(3)], vec![text("c2")]),
            div(vec![key(4)], vec![text("d")]),
            div(vec![key(1)], vec![text("a2")]),
            div(vec![key(3)], vec![text("again")]),
        ],
    );
    assert_eq!(
        diff(&old, &new),
        vec![
            Patch::change_text(Text::new("c"), TreePath::new(vec![0, 3, 0]), Text::new("c2")),
            Patch::change_text(Text::new("a"), TreePath::new(vec![0, 0, 0]), Text::new("a2")),
            Patch::remove_node(Some("div"), TreePath::new(vec![0, 2])),
        ]
    );
}

#[test]
fn elements_are_built_from_their_parts() {
    let mut element = Element::new(Some("svg"), "g", vec![id("x")], vec![text("a")], false);
    element.add_attributes(vec![class("c")]);
    element.add_children(vec![text("b"), input(vec![], vec![])]);
    assert_eq!(element.get_attributes(), &vec![id("x"), class("c")]);
    assert_eq!(element.get_children().len(), 3);
    assert!(element.same(&element.clone()));
    let node = Node::Element(element);
    assert_eq!(node.tag(), Some(&"g".to_string()));
    assert_eq!(node.get_attributes().map(|a| a.len()), Some(2));
    assert_eq!(text("a").tag(), None);
    assert!(text("a").get_attributes().is_none());
    assert!(node.same(&node.clone()));
    assert!(!node.same(&text("a")));
    assert_eq!(html_element("new", vec![], vec![]).tag(), Some(&"new".to_string()));
    match input(vec![], vec![]) {
        Node::Element(e) => assert!(e.self_closing),
        Node::Text(_) => panic!("an input is an element"),
    }
}

#[test]
fn styles_are_one_value_each() {
    assert_eq!(
        style("display", "none"),
        Attribute::new(None, "style", AttributeValue::Style(vec![Style::new("display", "none")]))
    );
    assert_eq!(
        styles(&[("a", "1"), ("b", "2")]),
        Attribute::new(
            None,
            "style",
            AttributeValue::Style(vec![Style::new("a", "1"), Style::new("b", "2")])
        )
    );
    assert_eq!(
        styles_flag(&[("a", "1", false), ("b", "2", true), ("c", "3", true)]),
        Attribute::new(
            None,
            "style",
            AttributeValue::Style(vec![Style::new("b", "2"), Style::new("c", "3")])
        )
    );
    assert_eq!(key(5), Attribute::new(None, "key", AttributeValue::Plain(Value::Int(5))));
}

#[test]
fn patch_constructors_fold_their_attributes() {
    let patch = Patch::add_attributes(
        "div",
        TreePath::new(vec![0]),
        vec![style("a", "1"), id("x"), style("b", "2")],
    );
    assert_eq!(
        patch.kind,
        PatchKind::AddAttributes(vec![
            Attribute::with_multiple_values(
                None,
                "style",
                vec![
                    AttributeValue::Style(vec![Style::new("a", "1")]),
                    AttributeValue::Style(vec![Style::new("b", "2")]),
                ]
            ),
            id("x"),
        ])
    );
    let patch = Patch::append_children("div", TreePath::new(vec![0, 1]), vec![text("a")]);
    assert_eq!(patch.kind, PatchKind::AppendChildren(vec![text("a")]));
    assert_eq!(patch.tag, Some("div".to_string()));
    let patch = Patch::remove_node(None, TreePath::new(vec![0, 1]));
    assert_eq!(patch.kind, PatchKind::RemoveNode);
    assert_eq!(patch.tag, None);
}

#[test]
fn keyed_comparison_adds_no_child() {
    let old: Node = div(vec![], vec![div(vec![key(1)], vec![])]);
    let new: Node = div(vec![], vec![div(vec![key(1)], vec![]), div(vec![key(2)], vec![])]);
    assert_eq!(diff(&old, &new), vec![]);
    let unkeyed: Node = div(vec![], vec![div(vec![], vec![]), div(vec![], vec![])]);
    assert_eq!(
        diff(&div(vec![], vec![div(vec![], vec![])]), &unkeyed),
        vec![Patch::append_children("div", TreePath::new(vec![0]), vec![div(vec![], vec![])])]
    );
}

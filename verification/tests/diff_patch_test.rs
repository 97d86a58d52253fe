use sauron_core::diff::engine::diff;
use sauron_core::vdom::attribute::Attribute;
use sauron_core::vdom::html::{
    article, b, class, classes, div, i, id, input, key, main, on_click, on_input, section, span,
    strong, style, styles, styles_flag, text, value,
};
use sauron_core::vdom::node::{Node, Text};
use sauron_core::vdom::patch::Patch;
use sauron_core::vdom::path::TreePath;
use sauron_core::vdom::value::{AttributeValue, Callback, Style, Value};

#[test]
fn nodes_with_event_must_be_replaced() {
    let elem_id = "input-remove-event-test";

    let old: Node = input(
        vec![
            id(elem_id),
            value("End Text"),
            on_input(Callback::new(1)),
        ],
        vec![],
    );

    let new = input(
        vec![
            id(elem_id),
            value("End Text"),
        ],
        vec![],
    );
    let patch = diff(&old, &new);
    println!("patch: {:#?}", patch);

    assert_eq!(
        patch,
        vec![Patch::replace_node(Some("input"),
            TreePath::new(vec![0]),
            input(vec![id(elem_id), value("End Text"),], vec![]),
        )
        ]
    );
}

#[test]
fn change_class_attribute() {
    let old: Node = div(vec![classes(&["class1", "class2"])], vec![]);

    let new = div(vec![classes(&["class1", "difference_class"])], vec![]);
    assert_eq!(
        diff(&old, &new),
        vec![Patch::add_attributes("div",
            TreePath::new(vec![0]),
            vec![Attribute::with_multiple_values(
                None,
                "class",
                vec![
                    AttributeValue::from_value(Value::Str("class1".to_string())),
                    AttributeValue::from_value(Value::Str("difference_class".to_string()))
                ]
            )]
        )
        ],
        "Should add the new attributes"
    );
}

#[test]
fn truncate_children() {
    let old: Node = div(
        vec![],
        vec![
            div(vec![class("class1")], vec![]),
            div(vec![class("class2")], vec![]),
            div(vec![class("class3")], vec![]),
            div(vec![class("class4")], vec![]),
            div(vec![class("class5")], vec![]),
            div(vec![class("class6")], vec![]),
            div(vec![class("class7")], vec![]),
        ],
    );

    let new = div(
        vec![],
        vec![
            div(vec![class("class1")], vec![]),
            div(vec![class("class2")], vec![]),
            div(vec![class("class3")], vec![]),
        ],
    );
    assert_eq!(
        diff(&old, &new),
        vec![
            Patch::remove_node(Some("div"), TreePath::new(vec![0, 3])),
            Patch::remove_node(Some("div"), TreePath::new(vec![0, 4])),
            Patch::remove_node(Some("div"), TreePath::new(vec![0, 5])),
            Patch::remove_node(Some("div"), TreePath::new(vec![0, 6])),
        ],
        "Should truncate children"
    );
}

#[test]
fn truncate_children_different_attributes() {
    let old: Node = div(
        vec![],
        vec![
            div(vec![class("class1")], vec![]),
            div(vec![class("class2")], vec![]),
            div(vec![class("class3")], vec![]),
            div(vec![class("class4")], vec![]),
            div(vec![class("class5")], vec![]),
            div(vec![class("class6")], vec![]),
            div(vec![class("class7")], vec![]),
        ],
    );

    let new = div(
        vec![],
        vec![
            div(vec![class("class5")], vec![]),
            div(vec![class("class6")], vec![]),
            div(vec![class("class7")], vec![]),
        ],
    );

    let patch = diff(&old, &new);

    assert_eq!(
        patch,
        vec![
            Patch::add_attributes("div",
                TreePath::new(vec![0, 0]),
                vec![class("class5")]
            )
            ,
            Patch::add_attributes("div",
                TreePath::new(vec![0, 1]),
                vec![class("class6")]
            )
            ,
            Patch::add_attributes("div",
                TreePath::new(vec![0, 2]),
                vec![class("class7")]
            )
            ,
            Patch::remove_node(Some("div"), TreePath::new(vec![0, 3])),
            Patch::remove_node(Some("div"), TreePath::new(vec![0, 4])),
            Patch::remove_node(Some("div"), TreePath::new(vec![0, 5])),
            Patch::remove_node(Some("div"), TreePath::new(vec![0, 6])),
        ],
        "Should truncate children"
    );
}

#[test]
fn replace_node2() {
    let old: Node =
        div(vec![], vec![b(vec![], vec![text("1")]), b(vec![], vec![])]);
    let new = div(vec![], vec![i(vec![], vec![text("1")]), i(vec![], vec![])]);

    let patch = diff(&old, &new);
    assert_eq!(
        patch,
        vec![
            Patch::replace_node(Some("b"),
                TreePath::new(vec![0, 0]),
                i(vec![], vec![text("1")])
            )
            ,
            Patch::replace_node(Some("b"),
                TreePath::new(vec![0, 1]),
                i(vec![], vec![])
            )
            ,
        ],
        "ReplaceNode node with a child",
    )
}

#[test]
fn remove_nodes1() {
    let old: Node =
        div(vec![], vec![b(vec![], vec![]), span(vec![], vec![])]); //{ <div> <b></b> <span></span> </div> },
    let new = div(vec![], vec![]); //{ <div> </div> },

    assert_eq!(
        diff(&old, &new),
        vec![
            Patch::remove_node(Some("b"), TreePath::new(vec![0, 0])),
            Patch::remove_node(Some("span"), TreePath::new(vec![0, 1])),
        ],
        "Remove all child nodes at and after child sibling index 1",
    );
}

#[test]
fn remove_nodes2() {
    let old: Node = div(
        vec![],
        vec![
            span(
                vec![],
                vec![
                    b(vec![], vec![]),
                    // This `i` tag will get removed
                    i(vec![], vec![]),
                ],
            ),
            // This `strong` tag will get removed
            strong(vec![], vec![]),
        ],
    );

    let new: Node =
        div(vec![], vec![span(vec![], vec![b(vec![], vec![])])]);

    assert_eq!(
        diff(&old, &new),
        vec![
            Patch::remove_node(Some("i"), TreePath::new(vec![0, 0, 1])),
            Patch::remove_node(Some("strong"), TreePath::new(vec![0, 1])),
        ],
        "Remove a child and a grandchild node",
    );
}

#[test]
fn remove_nodes3() {
    let old: Node = div(
        vec![],
        vec![
            b(vec![], vec![i(vec![], vec![]), i(vec![], vec![])]),
            b(vec![], vec![]),
        ],
    ); //{ <div> <b> <i></i> <i></i> </b> <b></b> </div> },
    let new = div(
        vec![],
        vec![b(vec![], vec![i(vec![], vec![])]), i(vec![], vec![])],
    ); //{ <div> <b> <i></i> </b> <i></i> </div>},
    assert_eq!(
        diff(&old, &new),
        vec![
            Patch::remove_node(Some("i"), TreePath::new(vec![0, 0, 1])),
            Patch::replace_node(Some("b"),
                TreePath::new(vec![0, 1]),
                i(vec![], vec![])
            )
            ,
        ],
        "Removing child and change next node after parent",
    )
}

#[test]
fn diff_patch_test_add_attributes() {
    let old: Node = div(vec![], vec![]); //{ <div> </div> },
    let new = div(vec![id("hello")], vec![]); //{ <div id="hello"> </div> },
    assert_eq!(
        diff(&old, &new),
        vec![Patch::add_attributes("div",
            TreePath::new(vec![0]),
            vec![id("hello")]
        )
        ],
        "Add attributes",
    );

    let old: Node = div(vec![id("foobar")], vec![]); //{ <div id="foobar"> </div> },
    let new = div(vec![id("hello")], vec![]); //{ <div id="hello"> </div> },

    assert_eq!(
        diff(&old, &new),
        vec![Patch::add_attributes("div",
            TreePath::new(vec![0]),
            vec![id("hello")]
        )
        ],
        "Change attribute",
    );
}

#[test]
fn add_style_attributes() {
    let old: Node = div(vec![style("display", "block")], vec![]);
    let new = div(vec![style("display", "none")], vec![]);
    assert_eq!(
        diff(&old, &new),
        vec![Patch::add_attributes("div",
            TreePath::new(vec![0]),
            vec![style("display", "none")]
        )
        ],
        "Add attributes",
    );
}

#[test]
fn add_style_attributes_1_change() {
    let old: Node = div(
        vec![styles(&[("display", "block"), ("position", "absolute")])],
        vec![],
    );
    let new = div(
        vec![styles(&[("display", "none"), ("position", "absolute")])],
        vec![],
    );
    assert_eq!(
        diff(&old, &new),
        vec![Patch::add_attributes("div",
            TreePath::new(vec![0]),
            vec![Attribute::with_multiple_values(
                None,
                "style",
                vec![AttributeValue::Style(vec![
                    Style::new("display", "none"),
                    Style::new("position", "absolute")
                ])]
            )]
        )
        ],
    );
}

#[test]
fn add_style_attributes_no_changes() {
    let old: Node = div(
        vec![styles(&[("display", "block"), ("position", "absolute")])],
        vec![],
    );
    let new = div(
        vec![styles(&[("display", "block"), ("position", "absolute")])],
        vec![],
    );
    assert_eq!(diff(&old, &new), vec![],);
}

#[test]
fn remove_style_attributes() {
    let old: Node = div(vec![style("display", "block")], vec![]);
    let new = div(vec![], vec![]);
    assert_eq!(
        diff(&old, &new),
        vec![Patch::remove_attributes("div",
            TreePath::new(vec![0]),
            vec![style("display", "block")]
        )
        ],
        "Add attributes",
    );
}

#[test]
fn remove_events_will_become_replace_node() {
    let old: Node = div(vec![on_click(Callback::new(1))], vec![]);
    let new = div(vec![], vec![]);
    assert_eq!(
        diff(&old, &new),
        vec![Patch::replace_node(Some("div"),
            TreePath::new(vec![0]),
            div(vec![], vec![])
        )
        ],
        "Remove events",
    );
}

#[test]
fn text_changed_in_keyed_elements() {
    let old: Node = main(
        vec![class("test4")],
        vec![section(
            vec![class("todo")],
            vec![
                article(vec![key(1)], vec![text("item1")]),
                article(vec![key(2)], vec![text("item2")]),
                article(vec![key(3)], vec![text("item3")]),
            ],
        )],
    );

    // we remove the key1
    let update1: Node = main(
        vec![class("test4")],
        vec![section(
            vec![class("todo")],
            vec![
                article(vec![key(2)], vec![text("item2")]),
                article(vec![key(3)], vec![text("item3 with changes")]),
            ],
        )],
    );

    let patch = diff(&old, &update1);
    assert_eq!(
        patch,
        vec![
            Patch::change_text(Text::new("item3"),
                TreePath::new(vec![0, 0, 2, 0]),
                Text::new("item3 with changes")
            )
            ,
            Patch::remove_node(Some("article"), TreePath::new(vec![0, 0, 0]))
                ,
        ]
    );
}

#[test]
fn multiple_style_calls() {
    let old: Node = div(
        vec![
            styles_flag(&[
                ("font-family", "monospace", true),
                ("user-select", "none", false),
            ]),
            styles(&[("display", "flex")]),
        ],
        vec![],
    );
    let new: Node = div(
        vec![style("font-family", "monospace1"), style("display", "flex")],
        vec![],
    );
    let patches = diff(&old, &new);
    println!("patches: {:#?}", patches);
    assert_eq!(
        patches,
        vec![Patch::add_attributes("div",
            TreePath::new(vec![0]),
            vec![
                style("font-family", "monospace1"),
                style("display", "flex")
            ]
        )
        ]
    );
}

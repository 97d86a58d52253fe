use sauron_core::dom::cmd::{Cmd, Effect};
use sauron_core::dom::edit::{Edit, Mutation};
use sauron_core::dom::error::PatchError;
use sauron_core::dom::live::{LiveElement, LiveNode};
use sauron_core::dom::materialize::materialize;
use sauron_core::dom::program::{body, Application, Dispatched, Mounted, Program};
use sauron_core::vdom::html::{div, id, on_click, text};
use sauron_core::vdom::node::Node;
use sauron_core::vdom::value::Callback;

enum Msg {
    Add(i64),
    Ping,
    Quiet,
}

struct Counter {
    total: i64,
}

impl Application<Msg> for Counter {
    fn init(&mut self) -> Cmd {
        Cmd::new(vec![Effect { id: 1 }])
    }

    fn update(&mut self, msg: Msg) -> Cmd {
        match msg {
            Msg::Add(n) => {
                self.total += n;
                Cmd::none()
            }
            Msg::Ping => Cmd::new(vec![Effect { id: 7 }, Effect { id: 8 }]).no_render(),
            Msg::Quiet => {
                self.total += 100;
                Cmd::none().no_render()
            }
        }
    }

    fn view(&self) -> Node {
        div(
            vec![id("counter"), on_click(Callback::new(3))],
            vec![text(&self.total.to_string())],
        )
    }

    fn style(&self) -> String {
        ".counter { color: red; }".to_string()
    }
}

#[test]
fn batch_joins_the_work_and_asks_for_a_view_where_one_does() {
    let cmds = vec![
        Cmd::new(vec![Effect { id: 1 }]).no_render(),
        Cmd::none().no_render(),
        Cmd::new(vec![Effect { id: 2 }, Effect { id: 3 }]).no_render().measure(),
    ];
    let all = Cmd::batch(&cmds);
    assert_eq!(all.commands, vec![Effect { id: 1 }, Effect { id: 2 }, Effect { id: 3 }]);
    assert!(!all.should_update_view);
    assert!(all.log_measurements);
    let cmds = vec![Cmd::none().no_render(), Cmd::none()];
    let all = Cmd::batch(&cmds);
    assert!(all.commands.is_empty());
    assert!(all.should_update_view);
    assert!(!all.log_measurements);
    let all = Cmd::batch(&vec![]);
    assert!(!all.should_update_view);
}

#[test]
fn body_is_an_empty_element() {
    let expected = LiveNode::Element(LiveElement {
        id: 0,
        namespace: None,
        tag: "body".to_string(),
        attrs: vec![],
        listeners: vec![],
        children: vec![],
    });
    assert_eq!(body(), expected);
}

#[test]
fn new_program_has_not_mounted_yet() {
    let program = Program::new(Counter { total: 4 }, &body());
    assert_eq!(program.dom_updater.root_node, body());
    assert_eq!(program.dom_updater.active_closure_len(), 0);
    assert_eq!(program.dom_updater.next_id, 0);
    assert_eq!(program.dom_updater.current_vdom, Counter { total: 4 }.view());
}

#[test]
fn mounting_materializes_the_view() {
    let (program, mounted) =
        Program::mount_to_body(Counter { total: 4 }).expect("mounting succeeds");
    let expected = materialize(&Counter { total: 4 }.view(), 0).expect("identities suffice").0;
    assert_eq!(program.root_node(), expected);
    assert_eq!(program.dom_updater.active_closure_len(), 1);
    assert_eq!(mounted.commands, vec![Effect { id: 1 }]);
    assert_eq!(mounted.style, ".counter { color: red; }");
    let (program, _) =
        Program::replace_mount(Counter { total: 5 }, &body()).expect("mounting succeeds");
    let expected = materialize(&Counter { total: 5 }.view(), 0).expect("identities suffice").0;
    assert_eq!(program.root_node(), expected);
}

#[test]
fn dispatch_brings_the_live_tree_up_to_date() {
    let (mut program, _) =
        Program::replace_body(Counter { total: 0 }).expect("mounting succeeds");
    let handled = program
        .dispatch_multiple(vec![Msg::Add(2), Msg::Ping, Msg::Add(3)])
        .expect("patching succeeds");
    assert_eq!(
        handled,
        Dispatched {
            commands: vec![Effect { id: 7 }, Effect { id: 8 }],
            mutations: Some(vec![Mutation { target: 1, edit: Edit::SetText("5".to_string()) }]),
        }
    );
    assert_eq!(program.app.total, 5);
    assert_eq!(program.dom_updater.current_vdom, Counter { total: 5 }.view());
    assert_eq!(program.dom_updater.active_closure_len(), 1);
}

#[test]
fn dispatch_leaves_the_tree_alone_where_no_view_is_asked_for() {
    let (mut program, _) =
        Program::append_to_mount(Counter { total: 0 }, &body()).expect("mounting succeeds");
    let before = program.root_node();
    let handled = program.dispatch(Msg::Quiet).expect("nothing to patch");
    assert_eq!(handled, Dispatched { commands: vec![], mutations: None });
    assert_eq!(program.app.total, 100);
    assert_eq!(program.root_node(), before);
    assert_eq!(program.dom_updater.current_vdom, Counter { total: 0 }.view());
}

#[test]
fn dispatch_fails_when_identities_run_out() {
    let (mut program, _) =
        Program::append_to_mount(Counter { total: 0 }, &body()).expect("mounting succeeds");
    program.dom_updater.next_id = u64::MAX;
    program.dom_updater.current_vdom = div(vec![], vec![]);
    program.dom_updater.root_node = materialize(&div(vec![], vec![]), 0).expect("fits").0;
    let r = program.dispatch(Msg::Add(1));
    assert_eq!(r, Err(PatchError::BackendMutationFailure));
}

#[test]
fn a_round_without_messages_changes_nothing() {
    let (mut program, _) =
        Program::append_to_mount(Counter { total: 3 }, &body()).expect("mounting succeeds");
    let before = program.root_node();
    let handled = program.dispatch_multiple(vec![]).expect("nothing to patch");
    assert_eq!(handled, Dispatched { commands: vec![], mutations: None });
    assert_eq!(program.app.total, 3);
    assert_eq!(program.root_node(), before);
    let cmd = program.update_all(vec![]);
    assert_eq!(cmd.commands, vec![]);
    assert!(!cmd.should_update_view);
    assert!(!cmd.log_measurements);
}

#[test]
fn update_all_batches_one_command_for_each_message() {
    let mut program = Program::new(Counter { total: 0 }, &body());
    let cmd = program.update_all(vec![Msg::Ping, Msg::Quiet, Msg::Ping]);
    assert_eq!(
        cmd.commands,
        vec![Effect { id: 7 }, Effect { id: 8 }, Effect { id: 7 }, Effect { id: 8 }]
    );
    assert!(!cmd.should_update_view);
    assert_eq!(program.app.total, 100);
    let cmd = program.update_all(vec![Msg::Quiet, Msg::Add(1)]);
    assert!(cmd.should_update_view);
    assert_eq!(program.app.total, 201);
    assert_eq!(program.dom_updater.root_node, body());
}

#[test]
fn mounted_holds_the_work_and_the_style() {
    let mounted = Mounted::new(Cmd::new(vec![Effect { id: 4 }, Effect { id: 2 }]), "a {}".to_string());
    assert_eq!(mounted.commands, vec![Effect { id: 4 }, Effect { id: 2 }]);
    assert_eq!(mounted.style, "a {}");
    let mut program = Program::new(Counter { total: 0 }, &body());
    let mounted = program.after_mounted();
    assert_eq!(mounted.commands, vec![Effect { id: 1 }]);
    assert_eq!(mounted.style, ".counter { color: red; }");
    assert_eq!(program.dom_updater.root_node, body());
}

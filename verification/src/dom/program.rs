use vstd::prelude::*;
use crate::diff::model::diff_trees;
use crate::dom::cmd::{asks_view, is_batch, work_of, Cmd, Effect};
use crate::dom::dom_updater::DomUpdater;
use crate::dom::edit::Mutation;
use crate::dom::error::PatchError;
use crate::dom::live::{
    lemma_live_element_view, LiveElement, LiveElementView, LiveNode, LiveNodeView,
};
use crate::dom::model::{applied, count, materialized, HandleView};
use crate::proofs::balance::balanced;
use crate::proofs::converge::convergent;
use crate::proofs::focus::focus_live;
use crate::proofs::jobs::demand_total;
use crate::vdom::node::{Node, NodeView};

verus! {

/// What the user of the library writes: a state, what a message does to it,
/// and the view that shows it. Nothing is asked of what the methods return.
pub trait Application<MSG> {
    /// The work to start with, once the view is mounted.
    fn init(&mut self) -> Cmd;

    /// Takes a message in.
    fn update(&mut self, msg: MSG) -> Cmd;

    /// The view of the state as it is.
    fn view(&self) -> Node;

    /// The style sheet of the application.
    fn style(&self) -> String;
}

/// An application with the updater of its live tree.
pub struct Program<APP> {
    /// The application of the user.
    pub app: APP,
    /// Keeps the live tree up to date with the view of the application.
    pub dom_updater: DomUpdater,
}

/// What is left to the host once the view is mounted.
#[derive(Debug, PartialEq, Eq)]
pub struct Mounted {
    /// The work that the application starts with.
    pub commands: Vec<Effect>,
    /// The style sheet of the application, as the application gave it.
    pub style: String,
}

/// What is left to the host once a round of messages is handled.
#[derive(Debug, PartialEq, Eq)]
pub struct Dispatched {
    /// The work that the updates ask for, in order.
    pub commands: Vec<Effect>,
    /// The edits that were made to the live tree, where a new view was asked for.
    pub mutations: Option<Vec<Mutation>>,
}

/// The live node that stands for the body of the page before anything is
/// mounted: an element `body` with identity 0 and nothing in it.
pub fn body() -> (r: LiveNode)
    ensures
        r@ == LiveNodeView::Element(
            LiveElementView {
                id: 0,
                namespace: None,
                tag: "body"@,
                attrs: Seq::empty(),
                listeners: Seq::empty(),
                children: Seq::empty(),
            },
        ),
{
    let e = LiveElement {
        id: 0,
        namespace: None,
        tag: "body".to_owned(),
        attrs: Vec::new(),
        listeners: Vec::new(),
        children: Vec::new(),
    };
    proof {
        lemma_live_element_view(e);
        assert(e@.attrs =~= Seq::empty());
        assert(e@.listeners =~= Seq::empty());
        assert(e@.children =~= Seq::empty());
    }
    LiveNode::Element(e)
}

impl Mounted {
    /// What is left to the host when the application starts with `cmd` and
    /// has the style sheet `style`: the work of `cmd`, in order, and `style`
    /// as it is.
    pub fn new(cmd: Cmd, style: String) -> (r: Mounted)
        ensures
            r.commands@ == cmd.commands@,
            r.style@ == style@,
    {
        Mounted { commands: cmd.commands, style }
    }
}

impl<APP> Program<APP> {
    /// A program for `app` that has not mounted its view yet: the updater holds
    /// the view that the application gave and `root_node` as the place to
    /// mount at.
    pub fn new<MSG>(app: APP, root_node: &LiveNode) -> (r: Program<APP>) where
        APP: Application<MSG>,

        ensures
            r.app == app,
            r.dom_updater.root_node@ == root_node@,
            r.dom_updater.active_closures@ == Seq::<HandleView>::empty(),
            r.dom_updater.focused_node.is_none(),
            r.dom_updater.next_id == 0,
    {
        let view = app.view();
        Program { app, dom_updater: DomUpdater::new(view, root_node) }
    }

    /// Asks the application for the work that it starts with and for its style
    /// sheet; the updater stays as it is.
    pub fn after_mounted<MSG>(&mut self) -> (r: Mounted) where APP: Application<MSG>
        ensures
            final(self).dom_updater == old(self).dom_updater,
    {
        let cmds = self.app.init();
        let style = self.app.style();
        Mounted::new(cmds, style)
    }

    /// A copy of the live tree.
    pub fn root_node(&self) -> (r: LiveNode)
        ensures
            r@ == self.dom_updater.root_node@,
    {
        self.dom_updater.root_node()
    }

    /// Mounts the view into the place to mount at.
    pub fn start_append_to_mount(&mut self) -> (r: Result<(), PatchError>)
        ensures
            final(self).app == old(self).app,
            final(self).dom_updater.current_vdom == old(self).dom_updater.current_vdom,
            match r {
                Ok(_) => {
                    &&& final(self).dom_updater.root_node@ == materialized(
                        old(self).dom_updater.current_vdom@,
                        old(self).dom_updater.next_id as int,
                    )
                    &&& final(self).dom_updater.next_id == old(self).dom_updater.next_id + count(
                        old(self).dom_updater.current_vdom@,
                    )
                    &&& final(self).dom_updater.faithful()
                },
                Err(e) => e == PatchError::BackendMutationFailure && final(self).dom_updater
                    == old(self).dom_updater,
            },
    {
        self.dom_updater.append_to_mount()
    }

    /// Mounts the view in the stead of the place to mount at.
    pub fn start_replace_mount(&mut self) -> (r: Result<(), PatchError>)
        ensures
            final(self).app == old(self).app,
            final(self).dom_updater.current_vdom == old(self).dom_updater.current_vdom,
            match r {
                Ok(_) => {
                    &&& final(self).dom_updater.root_node@ == materialized(
                        old(self).dom_updater.current_vdom@,
                        old(self).dom_updater.next_id as int,
                    )
                    &&& final(self).dom_updater.next_id == old(self).dom_updater.next_id + count(
                        old(self).dom_updater.current_vdom@,
                    )
                    &&& final(self).dom_updater.faithful()
                },
                Err(e) => e == PatchError::BackendMutationFailure && final(self).dom_updater
                    == old(self).dom_updater,
            },
    {
        self.dom_updater.replace_mount()
    }

    /// A program whose view is mounted in the stead of `root_node`, with what
    /// is left to the host: the live tree is the view of the application,
    /// freshly materialized.
    pub fn replace_mount<MSG>(app: APP, root_node: &LiveNode) -> (r: Result<
        (Program<APP>, Mounted),
        PatchError,
    >) where APP: Application<MSG>
        ensures
            match r {
                Ok((program, _)) => {
                    &&& program.dom_updater.root_node@ == materialized(
                        program.dom_updater.current_vdom@,
                        0,
                    )
                    &&& program.dom_updater.next_id == count(program.dom_updater.current_vdom@)
                    &&& program.dom_updater.faithful()
                },
                Err(e) => e == PatchError::BackendMutationFailure,
            },
    {
        let mut program = Program::new(app, root_node);
        match program.start_replace_mount() {
            Ok(_) => {
                let mounted = program.after_mounted();
                Ok((program, mounted))
            },
            Err(e) => Err(e),
        }
    }

    /// A program whose view is mounted into `root_node`, with what is left to
    /// the host: the live tree is the view of the application, freshly
    /// materialized.
    pub fn append_to_mount<MSG>(app: APP, root_node: &LiveNode) -> (r: Result<
        (Program<APP>, Mounted),
        PatchError,
    >) where APP: Application<MSG>
        ensures
            match r {
                Ok((program, _)) => {
                    &&& program.dom_updater.root_node@ == materialized(
                        program.dom_updater.current_vdom@,
                        0,
                    )
                    &&& program.dom_updater.next_id == count(program.dom_updater.current_vdom@)
                    &&& program.dom_updater.faithful()
                },
                Err(e) => e == PatchError::BackendMutationFailure,
            },
    {
        let mut program = Program::new(app, root_node);
        match program.start_append_to_mount() {
            Ok(_) => {
                let mounted = program.after_mounted();
                Ok((program, mounted))
            },
            Err(e) => Err(e),
        }
    }

    /// A program whose view is mounted into the body of the page.
    pub fn mount_to_body<MSG>(app: APP) -> (r: Result<(Program<APP>, Mounted), PatchError>) where
        APP: Application<MSG>,

        ensures
            match r {
                Ok((program, _)) => {
                    &&& program.dom_updater.root_node@ == materialized(
                        program.dom_updater.current_vdom@,
                        0,
                    )
                    &&& program.dom_updater.next_id == count(program.dom_updater.current_vdom@)
                    &&& program.dom_updater.faithful()
                },
                Err(e) => e == PatchError::BackendMutationFailure,
            },
    {
        let place = body();
        Program::append_to_mount(app, &place)
    }

    /// A program whose view is mounted in the stead of the body of the page.
    pub fn replace_body<MSG>(app: APP) -> (r: Result<(Program<APP>, Mounted), PatchError>) where
        APP: Application<MSG>,

        ensures
            match r {
                Ok((program, _)) => {
                    &&& program.dom_updater.root_node@ == materialized(
                        program.dom_updater.current_vdom@,
                        0,
                    )
                    &&& program.dom_updater.next_id == count(program.dom_updater.current_vdom@)
                    &&& program.dom_updater.faithful()
                },
                Err(e) => e == PatchError::BackendMutationFailure,
            },
    {
        let place = body();
        Program::replace_mount(app, &place)
    }

    /// Hands each message to the application, in order, and gives the commands
    /// that came back as one: the batch of one command for each message. The
    /// updater stays as it is, and so does the application where there is no
    /// message; the command then starts no work and asks for nothing.
    pub fn update_all<MSG>(&mut self, msgs: Vec<MSG>) -> (r: Cmd) where APP: Application<MSG>
        ensures
            final(self).dom_updater == old(self).dom_updater,
            msgs.len() == 0 ==> final(self).app == old(self).app,
            msgs.len() == 0 ==> r.commands@ == Seq::<Effect>::empty() && !r.should_update_view
                && !r.log_measurements,
            exists|cmds: Seq<Cmd>| cmds.len() == msgs.len() && #[trigger] is_batch(cmds, r),
    {
        let ghost total = msgs.len();
        let mut msgs = msgs;
        let mut all_cmd: Vec<Cmd> = Vec::new();
        while msgs.len() > 0
            invariant
                self.dom_updater == old(self).dom_updater,
                all_cmd.len() + msgs.len() == total,
                all_cmd.len() == 0 ==> self.app == old(self).app,
            decreases msgs.len(),
        {
            let msg = msgs.remove(0);
            let cmd = self.app.update(msg);
            all_cmd.push(cmd);
        }
        let r = Cmd::batch(&all_cmd);
        assert(all_cmd@.len() == total && is_batch(all_cmd@, r));
        r
    }

    /// Brings the live tree up to date with `view` where `cmd` asks for a new
    /// view, and leaves it alone where it does not; gives the work of `cmd`
    /// and the edits that were made.
    pub fn settle(&mut self, cmd: Cmd, view: Node) -> (r: Result<Dispatched, PatchError>)
        ensures
            final(self).app == old(self).app,
            balanced(old(self).dom_updater.state()) ==> balanced(final(self).dom_updater.state()),
            focus_live(old(self).dom_updater.state()) ==> focus_live(
                final(self).dom_updater.state(),
            ),
            !cmd.should_update_view ==> r.is_ok() && final(self).dom_updater == old(
                self,
            ).dom_updater,
            cmd.should_update_view ==> applied(
                old(self).dom_updater.state(),
                diff_trees(old(self).dom_updater.current_vdom@, view@),
            ).state == final(self).dom_updater.state(),
            cmd.should_update_view && old(self).dom_updater.faithful() && convergent(
                old(self).dom_updater.current_vdom@,
                view@,
            ) && old(self).dom_updater.next_id + demand_total(
                diff_trees(old(self).dom_updater.current_vdom@, view@),
            ) <= u64::MAX ==> r.is_ok() && final(self).dom_updater.faithful(),
            match r {
                Ok(d) => {
                    &&& d.commands@ == cmd.commands@
                    &&& d.mutations.is_some() == cmd.should_update_view
                    &&& cmd.should_update_view ==> {
                        &&& final(self).dom_updater.current_vdom == view
                        &&& applied(
                            old(self).dom_updater.state(),
                            diff_trees(old(self).dom_updater.current_vdom@, view@),
                        ).error.is_none()
                        &&& d.mutations.unwrap().len() == diff_trees(
                            old(self).dom_updater.current_vdom@,
                            view@,
                        ).len()
                    }
                },
                Err(e) => {
                    &&& cmd.should_update_view
                    &&& applied(
                        old(self).dom_updater.state(),
                        diff_trees(old(self).dom_updater.current_vdom@, view@),
                    ).error == Some(e)
                    &&& final(self).dom_updater.current_vdom == old(self).dom_updater.current_vdom
                },
            },
    {
        if cmd.should_update_view {
            match self.dom_updater.update_dom(view) {
                Ok(log) => Ok(Dispatched { commands: cmd.commands, mutations: Some(log) }),
                Err(e) => Err(e),
            }
        } else {
            Ok(Dispatched { commands: cmd.commands, mutations: None })
        }
    }

    /// Handles a round of messages: the application takes each of them in, and
    /// where one of its commands asks for a new view, the live tree is brought
    /// up to date with the view that the application then gives.
    ///
    /// The call succeeds where no command asks for a new view, and so where
    /// there is no message; it fails only where the patches for the new view
    /// fail, with their failure. The work that is given back is that of the
    /// commands, one for each message, in order.
    ///
    /// Whatever the application returns, a registry that owned exactly the
    /// handles of the listeners attached in the live tree still does so, and
    /// the focus is on a node of the live tree or on none where it was so
    /// before.
    pub fn dispatch_inner<MSG>(&mut self, msgs: Vec<MSG>) -> (r: Result<Dispatched, PatchError>) where
        APP: Application<MSG>,

        ensures
            handled(*old(self), *final(self), msgs.len() as nat, r),
    {
        let ghost total = msgs.len() as nat;
        let ghost before = *self;
        let cmd = self.update_all(msgs);
        let ghost cmds = choose|cmds: Seq<Cmd>| cmds.len() == total && #[trigger] is_batch(cmds, cmd);
        if cmd.should_update_view {
            let view = self.app.view();
            let r = self.settle(cmd, view);
            proof {
                assert(answers(cmds, total, r));
                if r is Err {
                    assert(refused(before.dom_updater, self.dom_updater, r->Err_0, view@));
                }
            }
            r
        } else {
            let r = Ok(Dispatched { commands: cmd.commands, mutations: None });
            assert(answers(cmds, total, r));
            r
        }
    }

    /// Handles the messages, as `dispatch_inner` does.
    pub fn dispatch_multiple<MSG>(&mut self, msgs: Vec<MSG>) -> (r: Result<
        Dispatched,
        PatchError,
    >) where APP: Application<MSG>
        ensures
            handled(*old(self), *final(self), msgs.len() as nat, r),
    {
        self.dispatch_inner(msgs)
    }

    /// Handles one message, as `dispatch_inner` handles a round of one.
    pub fn dispatch<MSG>(&mut self, msg: MSG) -> (r: Result<Dispatched, PatchError>) where
        APP: Application<MSG>,

        ensures
            handled(*old(self), *final(self), 1, r),
    {
        let mut msgs: Vec<MSG> = Vec::new();
        msgs.push(msg);
        self.dispatch_multiple(msgs)
    }
}

/// Whether `r` gives back what the commands `cmds`, one for each of `count`
/// messages, ask for: on success their work, in order, and edits exactly where
/// one of them asks for a new view; and a failure only where one of them does.
pub open spec fn answers(cmds: Seq<Cmd>, count: nat, r: Result<Dispatched, PatchError>) -> bool {
    &&& cmds.len() == count
    &&& match r {
        Ok(d) => d.commands@ == work_of(cmds, count as int) && d.mutations.is_some() == asks_view(
            cmds,
            count as int,
        ),
        Err(_) => asks_view(cmds, count as int),
    }
}

/// Whether the updater `after` is what the patches for the view `view` left of
/// the updater `before` when they failed with `e`: the failure is theirs, the
/// live tree is as they left it, and the view that `before` stood for stays.
/// Such patches are those of no convergent comparison on a faithful updater
/// with identities enough.
pub open spec fn refused(before: DomUpdater, after: DomUpdater, e: PatchError, view: NodeView) -> bool {
    let patches = diff_trees(before.current_vdom@, view);
    &&& applied(before.state(), patches).error == Some(e)
    &&& applied(before.state(), patches).state == after.state()
    &&& after.current_vdom == before.current_vdom
    &&& !(before.faithful() && convergent(before.current_vdom@, view) && before.next_id
        + demand_total(patches) <= u64::MAX)
}

/// Whether `r` and the program `after` are what a round of `count` messages
/// leaves of the program `before`.
///
/// Without a message nothing changes and nothing is given back. With edits,
/// the live tree is what the patches that turn the old view into the new one
/// leave of it, none of which failed, and there is one edit for each patch; a
/// faithful updater stays faithful where the comparison is convergent and the
/// identities suffice. Without edits the updater is untouched. A failure is
/// that of the patches for some view.
pub open spec fn handled<APP>(
    before: Program<APP>,
    after: Program<APP>,
    count: nat,
    r: Result<Dispatched, PatchError>,
) -> bool {
    let patches = diff_trees(before.dom_updater.current_vdom@, after.dom_updater.current_vdom@);
    &&& balanced(before.dom_updater.state()) ==> balanced(after.dom_updater.state())
    &&& focus_live(before.dom_updater.state()) ==> focus_live(after.dom_updater.state())
    &&& count == 0 ==> {
        &&& after.app == before.app
        &&& after.dom_updater == before.dom_updater
        &&& r.is_ok()
        &&& r.unwrap().commands@ == Seq::<Effect>::empty()
        &&& r.unwrap().mutations.is_none()
    }
    &&& exists|cmds: Seq<Cmd>| #[trigger] answers(cmds, count, r)
    &&& match r {
        Ok(d) => match d.mutations {
            Some(log) => {
                &&& applied(before.dom_updater.state(), patches).error.is_none()
                &&& applied(before.dom_updater.state(), patches).state == after.dom_updater.state()
                &&& log.len() == patches.len()
                &&& before.dom_updater.faithful() && convergent(
                    before.dom_updater.current_vdom@,
                    after.dom_updater.current_vdom@,
                ) && before.dom_updater.next_id + demand_total(patches) <= u64::MAX
                    ==> after.dom_updater.faithful()
            },
            None => after.dom_updater == before.dom_updater,
        },
        Err(e) => exists|view: NodeView|
            #[trigger] refused(before.dom_updater, after.dom_updater, e, view),
    }
}

} // verus!

use vstd::prelude::*;

verus! {

/// The identity of a piece of work that lives outside the library and is
/// started after an update: a request to send, a timer to set.
#[derive(Debug, PartialEq, Eq, Clone, Copy)]
pub struct Effect {
    pub id: u64,
}

/// What an update asks of the program: work to start, and whether the view
/// has to be built anew.
#[derive(Debug, PartialEq, Eq)]
pub struct Cmd {
    /// The work to start, in order.
    pub commands: Vec<Effect>,
    /// Whether the view has to be built anew.
    pub should_update_view: bool,
    /// Whether the program is asked to report how long the update took.
    pub log_measurements: bool,
}

/// The work of the first `k` commands, in order.
pub open spec fn work_of(cmds: Seq<Cmd>, k: int) -> Seq<Effect>
    decreases k,
{
    if k <= 0 || k > cmds.len() {
        Seq::empty()
    } else {
        work_of(cmds, k - 1) + cmds[k - 1].commands@
    }
}

/// Whether one of the first `k` commands asks for a new view.
pub open spec fn asks_view(cmds: Seq<Cmd>, k: int) -> bool {
    exists|i: int| 0 <= i < k && i < cmds.len() && (#[trigger] cmds[i]).should_update_view
}

/// Whether one of the first `k` commands asks for a report.
pub open spec fn asks_report(cmds: Seq<Cmd>, k: int) -> bool {
    exists|i: int| 0 <= i < k && i < cmds.len() && (#[trigger] cmds[i]).log_measurements
}

/// Whether `r` is the one command for all of `cmds`: it starts the work of
/// each, in order, and asks for a new view, or for a report, exactly where
/// one of them does.
pub open spec fn is_batch(cmds: Seq<Cmd>, r: Cmd) -> bool {
    &&& r.commands@ == work_of(cmds, cmds.len() as int)
    &&& r.should_update_view == asks_view(cmds, cmds.len() as int)
    &&& r.log_measurements == asks_report(cmds, cmds.len() as int)
}

impl Cmd {
    /// The command that starts the work `commands` and asks for a new view.
    pub fn new(commands: Vec<Effect>) -> (r: Cmd)
        ensures
            r.commands@ == commands@,
            r.should_update_view,
            !r.log_measurements,
    {
        Cmd { commands, should_update_view: true, log_measurements: false }
    }

    /// The command that starts no work and asks for a new view.
    pub fn none() -> (r: Cmd)
        ensures
            r.commands@ == Seq::<Effect>::empty(),
            r.should_update_view,
            !r.log_measurements,
    {
        Cmd { commands: Vec::new(), should_update_view: true, log_measurements: false }
    }

    /// This command, but the view stays as it is.
    pub fn no_render(self) -> (r: Cmd)
        ensures
            r.commands@ == self.commands@,
            !r.should_update_view,
            r.log_measurements == self.log_measurements,
    {
        Cmd {
            commands: self.commands,
            should_update_view: false,
            log_measurements: self.log_measurements,
        }
    }

    /// This command, and the program is asked to report how long the update took.
    pub fn measure(self) -> (r: Cmd)
        ensures
            r.commands@ == self.commands@,
            r.should_update_view == self.should_update_view,
            r.log_measurements,
    {
        Cmd {
            commands: self.commands,
            should_update_view: self.should_update_view,
            log_measurements: true,
        }
    }

    /// One command for all of `cmds`: it starts the work of each, in order,
    /// and asks for a new view, or for a report, where one of them does.
    pub fn batch(cmds: &Vec<Cmd>) -> (r: Cmd)
        ensures
            is_batch(cmds@, r),
    {
        let mut commands: Vec<Effect> = Vec::new();
        let mut should_update_view = false;
        let mut log_measurements = false;
        let mut i: usize = 0;
        while i < cmds.len()
            invariant
                i <= cmds.len(),
                commands@ == work_of(cmds@, i as int),
                should_update_view == asks_view(cmds@, i as int),
                log_measurements == asks_report(cmds@, i as int),
            decreases cmds.len() - i,
        {
            let cmd = &cmds[i];
            if cmd.should_update_view {
                should_update_view = true;
            }
            if cmd.log_measurements {
                log_measurements = true;
            }
            let mut k: usize = 0;
            while k < cmd.commands.len()
                invariant
                    k <= cmd.commands.len(),
                    commands@ == work_of(cmds@, i as int) + cmd.commands@.take(k as int),
                decreases cmd.commands.len() - k,
            {
                commands.push(cmd.commands[k]);
                assert(cmd.commands@.take(k as int + 1) =~= cmd.commands@.take(k as int).push(
                    cmd.commands@[k as int],
                ));
                k += 1;
            }
            assert(cmd.commands@.take(k as int) =~= cmd.commands@);
            proof {
                if asks_view(cmds@, i as int + 1) && !cmd.should_update_view {
                    let w = choose|w: int|
                        0 <= w < i + 1 && w < cmds.len() && (#[trigger] cmds@[w]).should_update_view;
                    assert(w < i);
                }
                if asks_report(cmds@, i as int + 1) && !cmd.log_measurements {
                    let w = choose|w: int|
                        0 <= w < i + 1 && w < cmds.len() && (#[trigger] cmds@[w]).log_measurements;
                    assert(w < i);
                }
                if cmd.should_update_view {
                    assert(cmds@[i as int].should_update_view);
                }
                if cmd.log_measurements {
                    assert(cmds@[i as int].log_measurements);
                }
            }
            i += 1;
        }
        Cmd { commands, should_update_view, log_measurements }
    }
}

} // verus!

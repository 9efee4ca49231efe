//! Commands: schedulable units of behavior with a declared requirement set,
//! and the lifecycle events the scheduler asks its caller to perform.

use vstd::prelude::*;

verus! {

/// One lifecycle call that the scheduler's caller must perform, in order.
/// The scheduler itself never runs user behavior; it decides which calls
/// happen and hands them back as events.
#[derive(Clone, Copy, Debug, PartialEq, Eq, Structural)]
pub enum Event {
    /// One-time setup of a newly admitted command.
    Initialize { id: u64 },
    /// One per-cycle invocation of a running command.
    Execute { id: u64 },
    /// One-time teardown; `interrupted` tells the command whether it was
    /// pre-empted or cancelled rather than finishing on its own.
    End { id: u64, interrupted: bool },
    /// Periodic upkeep of one subsystem, held or not.
    Periodic { resource: usize },
}

/// The mathematical content of a [`Command`].
#[verifier::ext_equal]
pub ghost struct CommandView {
    pub id: u64,
    pub reqs: Seq<usize>,
    pub interruptible: bool,
}

/// Every id in `reqs` names one of `n` registered subsystems.
pub open spec fn reqs_valid(reqs: Seq<usize>, n: nat) -> bool {
    forall|k: int| 0 <= k < reqs.len() ==> ((#[trigger] reqs[k]) as nat) < n
}

impl CommandView {
    /// Every declared requirement names a registered subsystem.
    pub open spec fn valid(self, n: nat) -> bool {
        reqs_valid(self.reqs, n)
    }
}

/// A schedulable unit of behavior.
///
/// A command is identified by `id`: two calls that hand the scheduler the
/// same `id` speak of the same command, so distinct commands must carry
/// distinct ids. `requirements` lists the subsystems the command must hold
/// exclusively while it runs; `interruptible` says whether a conflicting
/// later admission may pre-empt it.
pub struct Command {
    id: u64,
    requirements: Vec<usize>,
    interruptible: bool,
}

impl View for Command {
    type V = CommandView;

    closed spec fn view(&self) -> CommandView {
        CommandView { id: self.id, reqs: self.requirements@, interruptible: self.interruptible }
    }
}

impl Clone for Command {
    fn clone(&self) -> (r: Self)
        ensures
            r@ == self@,
    {
        let reqs = self.requirements.clone();
        assert(reqs@ =~= self.requirements@);
        Command { id: self.id, requirements: reqs, interruptible: self.interruptible }
    }
}

impl Command {
    pub fn new(id: u64, requirements: Vec<usize>, interruptible: bool) -> (c: Self)
        ensures
            c@ == (CommandView { id, reqs: requirements@, interruptible }),
    {
        Command { id, requirements, interruptible }
    }

    pub fn id(&self) -> (r: u64)
        ensures
            r == self@.id,
    {
        self.id
    }

    pub fn is_interruptible(&self) -> (r: bool)
        ensures
            r == self@.interruptible,
    {
        self.interruptible
    }

    pub fn requirements(&self) -> (r: &Vec<usize>)
        ensures
            r@ == self@.reqs,
    {
        &self.requirements
    }
}

/// One admission or cancellation request handed to a cycle.
pub enum Request {
    Schedule(Command),
    Cancel(u64),
}

/// The mathematical content of a [`Request`].
pub ghost enum RequestView {
    Schedule(CommandView),
    Cancel(u64),
}

impl View for Request {
    type V = RequestView;

    open spec fn view(&self) -> RequestView {
        match self {
            Request::Schedule(c) => RequestView::Schedule(c@),
            Request::Cancel(id) => RequestView::Cancel(*id),
        }
    }
}

/// The views of a sequence of requests.
pub open spec fn request_views(s: Seq<Request>) -> Seq<RequestView> {
    s.map_values(|q: Request| q@)
}

} // verus!

//! The tick-driven arbiter: owns the mapping from subsystem to current
//! holder, admits commands under the conflict-resolution policy, drives
//! lifecycles, backfills default commands and orders periodic upkeep.
//!
//! The mathematical model is a small transition system over [`ManagerView`]:
//! every exec operation's postcondition says that the new state and the
//! emitted events are exactly what the corresponding spec transition
//! produces. The cycle algorithm [`ManagerView::run_spec`] is the fixed
//! order: requests, lifecycle advancement, default backfill, periodic
//! upkeep.

use vstd::prelude::*;

use crate::command::{request_views, Command, CommandView, Event, Request, RequestView};

verus! {

/// One admitted command as the scheduler tracks it: the command itself and
/// whether its one-time setup has already run.
#[verifier::ext_equal]
pub ghost struct ActiveView {
    pub cmd: CommandView,
    pub initialized: bool,
}

/// The mathematical state of a [`CommandManager`].
#[verifier::ext_equal]
pub ghost struct ManagerView {
    /// Per subsystem, the registered default command, if any.
    pub defaults: Seq<Option<CommandView>>,
    /// Per subsystem, the id of the command currently holding it, if any.
    pub holder: Seq<Option<u64>>,
    /// The currently admitted commands, in admission order.
    pub active: Seq<ActiveView>,
}

/// Does the holder table map some requirement in `reqs` to the command `id`?
/// This is what makes an active command a conflicting holder for a new
/// admission with requirement set `reqs`.
pub open spec fn conflicted_id(holder: Seq<Option<u64>>, reqs: Seq<usize>, id: u64) -> bool {
    exists|k: int|
        #![trigger reqs[k]]
        0 <= k < reqs.len() && reqs[k] < holder.len() && holder[reqs[k] as int] == Some(id)
}

/// The command `c` holds every subsystem it declares.
pub open spec fn cmd_holds(holder: Seq<Option<u64>>, c: CommandView) -> bool {
    forall|k: int|
        #![trigger c.reqs[k]]
        0 <= k < c.reqs.len() ==> c.reqs[k] < holder.len() && holder[c.reqs[k] as int] == Some(
            c.id,
        )
}

/// The active commands that survive an admission with requirement set
/// `reqs`: the conflicting holders are dropped, the rest keep their order.
pub open spec fn survivors(
    active: Seq<ActiveView>,
    holder: Seq<Option<u64>>,
    reqs: Seq<usize>,
) -> Seq<ActiveView>
    decreases active.len(),
{
    if active.len() == 0 {
        Seq::empty()
    } else {
        let rest = survivors(active.drop_last(), holder, reqs);
        if conflicted_id(holder, reqs, active.last().cmd.id) {
            rest
        } else {
            rest.push(active.last())
        }
    }
}

/// The teardown events an admission with requirement set `reqs` emits: one
/// interrupted `End` per conflicting holder, in admission order.
pub open spec fn interruption_events(
    active: Seq<ActiveView>,
    holder: Seq<Option<u64>>,
    reqs: Seq<usize>,
) -> Seq<Event>
    decreases active.len(),
{
    if active.len() == 0 {
        Seq::empty()
    } else {
        let rest = interruption_events(active.drop_last(), holder, reqs);
        if conflicted_id(holder, reqs, active.last().cmd.id) {
            rest.push(Event::End { id: active.last().cmd.id, interrupted: true })
        } else {
            rest
        }
    }
}

/// The active commands without the one named `id`, order kept.
pub open spec fn remove_id(active: Seq<ActiveView>, id: u64) -> Seq<ActiveView>
    decreases active.len(),
{
    if active.len() == 0 {
        Seq::empty()
    } else {
        let rest = remove_id(active.drop_last(), id);
        if active.last().cmd.id == id {
            rest
        } else {
            rest.push(active.last())
        }
    }
}

/// The holder table with every subsystem held by `id` released.
pub open spec fn clear_id(holder: Seq<Option<u64>>, id: u64) -> Seq<Option<u64>> {
    Seq::new(
        holder.len(),
        |r: int|
            if holder[r] == Some(id) {
                None
            } else {
                holder[r]
            },
    )
}

/// One lifecycle step for every active command, in admission order: a new
/// entrant runs its one-time setup; a running command executes once and, if
/// its finish predicate (the ids in `fin`) says so, ends uninterrupted and
/// releases its subsystems.
pub open spec fn advance_fold(
    active: Seq<ActiveView>,
    holder: Seq<Option<u64>>,
    fin: Seq<u64>,
) -> (Seq<ActiveView>, Seq<Option<u64>>, Seq<Event>)
    decreases active.len(),
{
    if active.len() == 0 {
        (Seq::empty(), holder, Seq::empty())
    } else {
        let (na, h, evs) = advance_fold(active.drop_last(), holder, fin);
        let a = active.last();
        if !a.initialized {
            (
                na.push(ActiveView { cmd: a.cmd, initialized: true }),
                h,
                evs.push(Event::Initialize { id: a.cmd.id }),
            )
        } else if fin.contains(a.cmd.id) {
            (
                na,
                clear_id(h, a.cmd.id),
                evs.push(Event::Execute { id: a.cmd.id }).push(
                    Event::End { id: a.cmd.id, interrupted: false },
                ),
            )
        } else {
            (na.push(a), h, evs.push(Event::Execute { id: a.cmd.id }))
        }
    }
}

/// One upkeep event per registered subsystem, in subsystem order.
pub open spec fn periodic_events(n: nat) -> Seq<Event> {
    Seq::new(n, |r: int| Event::Periodic { resource: r as usize })
}

/// Does some command in `active` carry this id?
pub open spec fn has_id(active: Seq<ActiveView>, id: u64) -> bool {
    exists|i: int| 0 <= i < active.len() && (#[trigger] active[i]).cmd.id == id
}

/// No command id appears twice in `active`.
pub open spec fn ids_unique_in(active: Seq<ActiveView>) -> bool {
    forall|i: int, j: int|
        0 <= i < j < active.len() ==> (#[trigger] active[i]).cmd.id != (
        #[trigger] active[j]).cmd.id
}

/// Every command in `active` holds every subsystem it declares.
pub open spec fn all_hold_in(holder: Seq<Option<u64>>, active: Seq<ActiveView>) -> bool {
    forall|i: int| 0 <= i < active.len() ==> cmd_holds(holder, (#[trigger] active[i]).cmd)
}

/// Every held subsystem is held by a command in `active` that declares it.
pub open spec fn holder_backed_in(holder: Seq<Option<u64>>, active: Seq<ActiveView>) -> bool {
    forall|r: int|
        0 <= r < holder.len() ==> ((#[trigger] holder[r]) matches Some(id) ==> exists|i: int|
            0 <= i < active.len() && (#[trigger] active[i]).cmd.id == id
                && active[i].cmd.reqs.contains(r as usize))
}

impl ManagerView {
    /// The number of registered subsystems.
    pub open spec fn n(self) -> nat {
        self.holder.len()
    }

    /// No command id appears twice among the active commands.
    pub open spec fn ids_unique(self) -> bool {
        ids_unique_in(self.active)
    }

    /// Every active command holds every subsystem it declares.
    pub open spec fn all_hold(self) -> bool {
        all_hold_in(self.holder, self.active)
    }

    /// Every held subsystem is held by an active command that declares it.
    pub open spec fn holder_backed(self) -> bool {
        holder_backed_in(self.holder, self.active)
    }

    /// Every registered default command declares its own subsystem, declares
    /// only registered subsystems, and may be pre-empted.
    pub open spec fn defaults_ok(self) -> bool {
        forall|r: int|
            0 <= r < self.defaults.len() ==> ((#[trigger] self.defaults[r]) matches Some(d) ==> {
                &&& d.valid(self.n())
                &&& d.reqs.contains(r as usize)
                &&& d.interruptible
            })
    }

    /// Well-formedness: the scheduler's internal invariant. Established by
    /// construction and preserved by every operation.
    pub open spec fn wf(self) -> bool {
        &&& self.defaults.len() == self.holder.len()
        &&& self.ids_unique()
        &&& self.all_hold()
        &&& self.holder_backed()
        &&& self.defaults_ok()
    }

    /// Is a command with this id currently admitted?
    pub open spec fn has_active(self, id: u64) -> bool {
        has_id(self.active, id)
    }

    /// Admitting `c` is blocked: some conflicting holder may not be
    /// interrupted.
    pub open spec fn blocked(self, c: CommandView) -> bool {
        exists|i: int|
            0 <= i < self.active.len() && conflicted_id(
                self.holder,
                c.reqs,
                (#[trigger] self.active[i]).cmd.id,
            ) && !self.active[i].cmd.interruptible
    }

    /// The state after admitting `c`: conflicting holders are removed and
    /// their subsystems released, then `c` claims every subsystem it
    /// declares and joins the active commands as a new entrant.
    pub open spec fn admitted(self, c: CommandView) -> ManagerView {
        ManagerView {
            defaults: self.defaults,
            holder: Seq::new(
                self.holder.len(),
                |r: int|
                    if c.reqs.contains(r as usize) {
                        Some(c.id)
                    } else if self.holder[r] matches Some(d) && conflicted_id(
                        self.holder,
                        c.reqs,
                        d,
                    ) {
                        None
                    } else {
                        self.holder[r]
                    },
            ),
            active: survivors(self.active, self.holder, c.reqs).push(
                ActiveView { cmd: c, initialized: false },
            ),
        }
    }

    /// Admission: a no-op if `c` is already active (idempotence) or blocked
    /// by a non-interruptible holder (silent rejection); otherwise every
    /// conflicting holder is interrupted and `c` is admitted.
    pub open spec fn schedule_step(self, c: CommandView) -> (ManagerView, Seq<Event>) {
        if self.has_active(c.id) {
            (self, Seq::empty())
        } else if self.blocked(c) {
            (self, Seq::empty())
        } else {
            (self.admitted(c), interruption_events(self.active, self.holder, c.reqs))
        }
    }

    /// Cancellation: if active, the command ends interrupted and releases
    /// its subsystems; otherwise nothing happens.
    pub open spec fn cancel_step(self, id: u64) -> (ManagerView, Seq<Event>) {
        if self.has_active(id) {
            (
                ManagerView {
                    defaults: self.defaults,
                    holder: clear_id(self.holder, id),
                    active: remove_id(self.active, id),
                },
                seq![Event::End { id, interrupted: true }],
            )
        } else {
            (self, Seq::empty())
        }
    }

    /// One schedule or cancel request.
    pub open spec fn request_step(self, q: RequestView) -> (ManagerView, Seq<Event>) {
        match q {
            RequestView::Schedule(c) => self.schedule_step(c),
            RequestView::Cancel(id) => self.cancel_step(id),
        }
    }

    /// All of a cycle's requests, in order.
    pub open spec fn requests_fold(self, qs: Seq<RequestView>) -> (ManagerView, Seq<Event>)
        decreases qs.len(),
    {
        if qs.len() == 0 {
            (self, Seq::empty())
        } else {
            let (s1, e1) = self.requests_fold(qs.drop_last());
            let (s2, e2) = s1.request_step(qs.last());
            (s2, e1 + e2)
        }
    }

    /// Lifecycle advancement for every active command.
    pub open spec fn advance_step(self, fin: Seq<u64>) -> (ManagerView, Seq<Event>) {
        let (na, h, evs) = advance_fold(self.active, self.holder, fin);
        (ManagerView { defaults: self.defaults, holder: h, active: na }, evs)
    }

    /// Default-command backfill over subsystems `0..upto`: each subsystem
    /// with a registered default and no current holder has its default put
    /// through the ordinary admission step.
    pub open spec fn backfill_fold(self, upto: nat) -> (ManagerView, Seq<Event>)
        decreases upto,
    {
        if upto == 0 {
            (self, Seq::empty())
        } else {
            let (s1, e1) = self.backfill_fold((upto - 1) as nat);
            let r = (upto - 1) as int;
            match s1.defaults[r] {
                Some(d) => if s1.holder[r] is None {
                    let (s2, e2) = s1.schedule_step(d);
                    (s2, e1 + e2)
                } else {
                    (s1, e1)
                },
                None => (s1, e1),
            }
        }
    }

    /// Default-command backfill over all subsystems.
    pub open spec fn backfill_step(self) -> (ManagerView, Seq<Event>) {
        self.backfill_fold(self.n())
    }

    /// One full cycle, in the fixed order that is itself part of the
    /// contract: requests, then lifecycle advancement, then default
    /// backfill, then periodic upkeep of every subsystem.
    pub open spec fn run_spec(self, qs: Seq<RequestView>, fin: Seq<u64>) -> (
        ManagerView,
        Seq<Event>,
    ) {
        let (s1, e1) = self.requests_fold(qs);
        let (s2, e2) = s1.advance_step(fin);
        let (s3, e3) = s2.backfill_step();
        (s3, e1 + e2 + e3 + periodic_events(s3.n()))
    }

    /// The state of a scheduler with no subsystems and no active commands.
    pub open spec fn empty() -> ManagerView {
        ManagerView { defaults: Seq::empty(), holder: Seq::empty(), active: Seq::empty() }
    }
}

/// Every survivor of an admission is one of the original active commands,
/// and an unconflicted one.
pub proof fn lemma_survivors_membership(
    active: Seq<ActiveView>,
    holder: Seq<Option<u64>>,
    reqs: Seq<usize>,
)
    ensures
        forall|j: int|
            0 <= j < survivors(active, holder, reqs).len() ==> exists|i: int|
                0 <= i < active.len() && (#[trigger] survivors(active, holder, reqs)[j])
                    == active[i] && !conflicted_id(holder, reqs, active[i].cmd.id),
    decreases active.len(),
{
    if active.len() == 0 {
    } else {
        let prev = active.drop_last();
        lemma_survivors_membership(prev, holder, reqs);
        let surv = survivors(active, holder, reqs);
        let rest = survivors(prev, holder, reqs);
        assert forall|j: int| 0 <= j < surv.len() implies exists|i: int|
            0 <= i < active.len() && (#[trigger] surv[j]) == active[i] && !conflicted_id(
                holder,
                reqs,
                active[i].cmd.id,
            ) by {
            if j < rest.len() {
                let i = choose|i: int|
                    0 <= i < prev.len() && rest[j] == prev[i] && !conflicted_id(
                        holder,
                        reqs,
                        prev[i].cmd.id,
                    );
                assert(active[i] == prev[i]);
                assert(surv[j] == active[i] && !conflicted_id(holder, reqs, active[i].cmd.id));
            } else {
                let i = active.len() - 1;
                assert(surv[j] == active[i] && !conflicted_id(holder, reqs, active[i].cmd.id));
            }
        }
    }
}

/// Every unconflicted active command survives an admission.
pub proof fn lemma_survivors_complete(
    active: Seq<ActiveView>,
    holder: Seq<Option<u64>>,
    reqs: Seq<usize>,
)
    ensures
        forall|i: int|
            0 <= i < active.len() && !conflicted_id(holder, reqs, (#[trigger] active[i]).cmd.id)
                ==> exists|j: int|
                0 <= j < survivors(active, holder, reqs).len() && survivors(active, holder, reqs)[j]
                    == active[i],
    decreases active.len(),
{
    if active.len() == 0 {
    } else {
        let prev = active.drop_last();
        lemma_survivors_complete(prev, holder, reqs);
        let surv = survivors(active, holder, reqs);
        let rest = survivors(prev, holder, reqs);
        assert forall|i: int|
            0 <= i < active.len() && !conflicted_id(
                holder,
                reqs,
                (#[trigger] active[i]).cmd.id,
            ) implies exists|j: int| 0 <= j < surv.len() && surv[j] == active[i] by {
            if i < prev.len() {
                assert(prev[i] == active[i]);
                let j = choose|j: int| 0 <= j < rest.len() && rest[j] == prev[i];
                assert(surv[j] == active[i]);
            } else {
                let j = rest.len() as int;
                assert(surv[j] == active[i]);
            }
        }
    }
}

/// Admission keeps the active ids unique.
pub proof fn lemma_survivors_unique(
    active: Seq<ActiveView>,
    holder: Seq<Option<u64>>,
    reqs: Seq<usize>,
)
    requires
        ids_unique_in(active),
    ensures
        ids_unique_in(survivors(active, holder, reqs)),
        forall|j: int, id: u64|
            #![trigger survivors(active, holder, reqs)[j], has_id(active, id)]
            0 <= j < survivors(active, holder, reqs).len() && !has_id(active, id)
                ==> survivors(active, holder, reqs)[j].cmd.id != id,
    decreases active.len(),
{
    if active.len() == 0 {
    } else {
        let prev = active.drop_last();
        assert(ids_unique_in(prev)) by {
            assert forall|i: int, j: int| 0 <= i < j < prev.len() implies (
            #[trigger] prev[i]).cmd.id != (#[trigger] prev[j]).cmd.id by {
                assert(prev[i] == active[i] && prev[j] == active[j]);
            }
        }
        lemma_survivors_unique(prev, holder, reqs);
        lemma_survivors_membership(prev, holder, reqs);
        let surv = survivors(active, holder, reqs);
        let rest = survivors(prev, holder, reqs);
        let last = active.last();
        assert forall|j: int, id: u64|
            #![trigger surv[j], has_id(active, id)]
            0 <= j < surv.len() && !has_id(active, id) implies surv[j].cmd.id != id by {
            if j < rest.len() {
                assert(!has_id(prev, id)) by {
                    if has_id(prev, id) {
                        let i = choose|i: int| 0 <= i < prev.len() && prev[i].cmd.id == id;
                        assert(active[i].cmd.id == id);
                    }
                }
                assert(rest[j].cmd.id != id);
            } else {
                assert(surv[j] == last);
                assert(active[active.len() - 1].cmd.id == last.cmd.id);
            }
        }
        if !conflicted_id(holder, reqs, last.cmd.id) {
            assert(surv == rest.push(last));
            assert forall|i: int, j: int| 0 <= i < j < surv.len() implies (
            #[trigger] surv[i]).cmd.id != (#[trigger] surv[j]).cmd.id by {
                if j < rest.len() {
                    assert(surv[i] == rest[i] && surv[j] == rest[j]);
                } else {
                    assert(surv[j] == last);
                    let ii = choose|ii: int|
                        0 <= ii < prev.len() && rest[i] == prev[ii] && !conflicted_id(
                            holder,
                            reqs,
                            prev[ii].cmd.id,
                        );
                    assert(active[ii] == prev[ii]);
                    assert(active[ii].cmd.id != active[active.len() - 1].cmd.id);
                }
            }
        }
    }
}

/// Removing an absent id changes nothing.
pub proof fn lemma_remove_id_absent(active: Seq<ActiveView>, id: u64)
    requires
        !has_id(active, id),
    ensures
        remove_id(active, id) == active,
    decreases active.len(),
{
    if active.len() == 0 {
        assert(remove_id(active, id) =~= active);
    } else {
        let prev = active.drop_last();
        assert(!has_id(prev, id)) by {
            if has_id(prev, id) {
                let i = choose|i: int| 0 <= i < prev.len() && (#[trigger] prev[i]).cmd.id == id;
                assert(active[i].cmd.id == id);
            }
        }
        lemma_remove_id_absent(prev, id);
        assert(active[active.len() - 1].cmd.id != id);
        assert(remove_id(active, id) =~= active);
    }
}

/// With unique ids, removing an id removes exactly the one entry that
/// carries it.
pub proof fn lemma_remove_id_at(active: Seq<ActiveView>, id: u64, idx: int)
    requires
        ids_unique_in(active),
        0 <= idx < active.len(),
        active[idx].cmd.id == id,
    ensures
        remove_id(active, id) == active.subrange(0, idx) + active.subrange(
            idx + 1,
            active.len() as int,
        ),
    decreases active.len(),
{
    let prev = active.drop_last();
    if idx == active.len() - 1 {
        assert(!has_id(prev, id)) by {
            if has_id(prev, id) {
                let i = choose|i: int| 0 <= i < prev.len() && (#[trigger] prev[i]).cmd.id == id;
                assert(active[i].cmd.id == id && active[idx].cmd.id == id);
            }
        }
        lemma_remove_id_absent(prev, id);
        assert(remove_id(active, id) == prev);
        assert(prev =~= active.subrange(0, idx) + active.subrange(idx + 1, active.len() as int));
    } else {
        assert(ids_unique_in(prev)) by {
            assert forall|i: int, j: int| 0 <= i < j < prev.len() implies (
            #[trigger] prev[i]).cmd.id != (#[trigger] prev[j]).cmd.id by {
                assert(prev[i] == active[i] && prev[j] == active[j]);
            }
        }
        assert(prev[idx] == active[idx]);
        lemma_remove_id_at(prev, id, idx);
        assert(active[active.len() - 1].cmd.id != id);
        assert(remove_id(active, id) == remove_id(prev, id).push(active.last()));
        assert(remove_id(prev, id).push(active.last()) =~= active.subrange(0, idx)
            + active.subrange(idx + 1, active.len() as int)) by {
            assert forall|j: int| 0 <= j < remove_id(prev, id).len() + 1 implies remove_id(
                prev,
                id,
            ).push(active.last())[j] == (active.subrange(0, idx) + active.subrange(
                idx + 1,
                active.len() as int,
            ))[j] by {
                if j < remove_id(prev, id).len() {
                    assert(remove_id(prev, id)[j] == (prev.subrange(0, idx) + prev.subrange(
                        idx + 1,
                        prev.len() as int,
                    ))[j]);
                    if j < idx {
                        assert(prev.subrange(0, idx)[j] == prev[j]);
                        assert(active.subrange(0, idx)[j] == active[j]);
                    } else {
                        assert(prev.subrange(idx + 1, prev.len() as int)[j - idx] == prev[j + 1]);
                        assert(active.subrange(idx + 1, active.len() as int)[j - idx] == active[j
                            + 1]);
                    }
                }
            }
        }
    }
}

/// The cancellation step preserves the scheduler invariant.
pub proof fn lemma_cancel_step_wf(s: ManagerView, id: u64)
    requires
        s.wf(),
    ensures
        s.cancel_step(id).0.wf(),
{
    if s.has_active(id) {
        let idx = choose|idx: int| 0 <= idx < s.active.len() && (#[trigger] s.active[idx]).cmd.id
            == id;
        lemma_remove_id_at(s.active, id, idx);
        let s2 = s.cancel_step(id).0;
        assert(s2.active == s.active.subrange(0, idx) + s.active.subrange(
            idx + 1,
            s.active.len() as int,
        ));
        assert(s2.holder.len() == s.holder.len());
        assert forall|j: int| 0 <= j < s2.active.len() implies (#[trigger] s2.active[j]) == (if j
            < idx {
            s.active[j]
        } else {
            s.active[j + 1]
        }) by {
            if j < idx {
                assert(s.active.subrange(0, idx)[j] == s.active[j]);
            } else {
                assert(s.active.subrange(idx + 1, s.active.len() as int)[j - idx] == s.active[j
                    + 1]);
            }
        }
        assert forall|j: int| 0 <= j < s2.active.len() implies cmd_holds(
            s2.holder,
            (#[trigger] s2.active[j]).cmd,
        ) by {
            let jj = if j < idx {
                j
            } else {
                j + 1
            };
            let a = s.active[jj].cmd;
            assert(s2.active[j].cmd == a);
            assert(cmd_holds(s.holder, a));
            assert(a.id != id);
            assert forall|k: int| 0 <= k < a.reqs.len() implies (#[trigger] a.reqs[k])
                < s2.holder.len() && s2.holder[a.reqs[k] as int] == Some(a.id) by {
                assert(s.holder[a.reqs[k] as int] == Some(a.id));
            }
        }
        assert forall|r: int| 0 <= r < s2.holder.len() implies ((#[trigger] s2.holder[r]) matches
        Some(x) ==> exists|i: int|
            0 <= i < s2.active.len() && (#[trigger] s2.active[i]).cmd.id == x
                && s2.active[i].cmd.reqs.contains(r as usize)) by {
            match s2.holder[r] {
                None => {},
                Some(x) => {
                    assert(s.holder[r] == Some(x) && x != id);
                    let bi = choose|bi: int|
                        0 <= bi < s.active.len() && (#[trigger] s.active[bi]).cmd.id == x
                            && s.active[bi].cmd.reqs.contains(r as usize);
                    assert(bi != idx);
                    let j = if bi < idx {
                        bi
                    } else {
                        bi - 1
                    };
                    assert(s2.active[j] == s.active[bi]);
                    assert(s2.active[j].cmd.id == x && s2.active[j].cmd.reqs.contains(r as usize));
                },
            }
        }
        assert(s2.wf());
    }
}

/// Does lifecycle advancement remove the command `d`: some active command
/// carries that id, has run its setup, and its finish predicate fired.
pub open spec fn advance_removes(active: Seq<ActiveView>, fin: Seq<u64>, d: u64) -> bool {
    exists|i: int|
        0 <= i < active.len() && (#[trigger] active[i]).cmd.id == d && active[i].initialized
            && fin.contains(d)
}

/// What lifecycle advancement does to the holder table: exactly the
/// finished commands' subsystems are released.
pub proof fn lemma_advance_fold_holder(
    active: Seq<ActiveView>,
    holder: Seq<Option<u64>>,
    fin: Seq<u64>,
)
    ensures
        advance_fold(active, holder, fin).1.len() == holder.len(),
        forall|r: int|
            0 <= r < holder.len() ==> advance_fold(active, holder, fin).1[r] == (
            if holder[r] matches Some(d) && advance_removes(active, fin, d) {
                None::<u64>
            } else {
                holder[r]
            }),
    decreases active.len(),
{
    if active.len() == 0 {
    } else {
        let prev = active.drop_last();
        lemma_advance_fold_holder(prev, holder, fin);
        let h = advance_fold(prev, holder, fin).1;
        let last = active.last();
        let lid = last.cmd.id;
        assert forall|d: u64|
            #![trigger advance_removes(active, fin, d)]
            advance_removes(active, fin, d) == (advance_removes(prev, fin, d) || (d == lid
                && last.initialized && fin.contains(d))) by {
            if advance_removes(active, fin, d) {
                let i = choose|i: int|
                    0 <= i < active.len() && (#[trigger] active[i]).cmd.id == d
                        && active[i].initialized && fin.contains(d);
                if i < active.len() - 1 {
                    assert(prev[i] == active[i]);
                    assert(advance_removes(prev, fin, d));
                }
            }
            if advance_removes(prev, fin, d) {
                let i = choose|i: int|
                    0 <= i < prev.len() && (#[trigger] prev[i]).cmd.id == d && prev[i].initialized
                        && fin.contains(d);
                assert(active[i] == prev[i]);
                assert(advance_removes(active, fin, d));
            }
            if d == lid && last.initialized && fin.contains(d) {
                assert(active[active.len() - 1] == last);
                assert(advance_removes(active, fin, d));
            }
        }
        if last.initialized && fin.contains(lid) {
            assert(advance_fold(active, holder, fin).1 == clear_id(h, lid));
        } else {
            assert(advance_fold(active, holder, fin).1 == h);
        }
    }
}

/// Every command after lifecycle advancement is one of the originals whose
/// finish predicate did not fire, and every such original remains.
pub proof fn lemma_advance_fold_entries(
    active: Seq<ActiveView>,
    holder: Seq<Option<u64>>,
    fin: Seq<u64>,
)
    ensures
        forall|j: int|
            0 <= j < advance_fold(active, holder, fin).0.len() ==> exists|i: int|
                0 <= i < active.len() && (#[trigger] advance_fold(active, holder, fin).0[j]).cmd
                    == active[i].cmd && !(active[i].initialized && fin.contains(active[i].cmd.id)),
        forall|i: int|
            0 <= i < active.len() && !((#[trigger] active[i]).initialized && fin.contains(
                active[i].cmd.id,
            )) ==> exists|j: int|
                0 <= j < advance_fold(active, holder, fin).0.len() && advance_fold(
                    active,
                    holder,
                    fin,
                ).0[j].cmd == active[i].cmd,
    decreases active.len(),
{
    if active.len() == 0 {
    } else {
        let prev = active.drop_last();
        lemma_advance_fold_entries(prev, holder, fin);
        let na = advance_fold(active, holder, fin).0;
        let rest = advance_fold(prev, holder, fin).0;
        let last = active.last();
        assert forall|j: int| 0 <= j < na.len() implies exists|i: int|
            0 <= i < active.len() && (#[trigger] na[j]).cmd == active[i].cmd && !(
            active[i].initialized && fin.contains(active[i].cmd.id)) by {
            if j < rest.len() {
                assert(na[j] == rest[j]);
                let i = choose|i: int|
                    0 <= i < prev.len() && (#[trigger] rest[j]).cmd == prev[i].cmd && !(
                    prev[i].initialized && fin.contains(prev[i].cmd.id));
                assert(active[i] == prev[i]);
            } else {
                let i = active.len() - 1;
                assert(na[j].cmd == active[i].cmd && !(active[i].initialized && fin.contains(
                    active[i].cmd.id,
                )));
            }
        }
        assert forall|i: int|
            0 <= i < active.len() && !((#[trigger] active[i]).initialized && fin.contains(
                active[i].cmd.id,
            )) implies exists|j: int| 0 <= j < na.len() && na[j].cmd == active[i].cmd by {
            if i < prev.len() {
                assert(prev[i] == active[i]);
                let j = choose|j: int| 0 <= j < rest.len() && (#[trigger] rest[j]).cmd == prev[i].cmd;
                assert(na[j] == rest[j]);
            } else {
                if !last.initialized {
                    assert(na[rest.len() as int].cmd == active[i].cmd);
                } else {
                    assert(na[rest.len() as int].cmd == active[i].cmd);
                }
            }
        }
    }
}

/// Lifecycle advancement keeps the active ids unique.
pub proof fn lemma_advance_fold_unique(
    active: Seq<ActiveView>,
    holder: Seq<Option<u64>>,
    fin: Seq<u64>,
)
    requires
        ids_unique_in(active),
    ensures
        ids_unique_in(advance_fold(active, holder, fin).0),
        forall|j: int, id: u64|
            #![trigger advance_fold(active, holder, fin).0[j], has_id(active, id)]
            0 <= j < advance_fold(active, holder, fin).0.len() && !has_id(active, id)
                ==> advance_fold(active, holder, fin).0[j].cmd.id != id,
    decreases active.len(),
{
    if active.len() == 0 {
    } else {
        let prev = active.drop_last();
        assert(ids_unique_in(prev)) by {
            assert forall|i: int, j: int| 0 <= i < j < prev.len() implies (
            #[trigger] prev[i]).cmd.id != (#[trigger] prev[j]).cmd.id by {
                assert(prev[i] == active[i] && prev[j] == active[j]);
            }
        }
        lemma_advance_fold_unique(prev, holder, fin);
        lemma_advance_fold_entries(prev, holder, fin);
        let na = advance_fold(active, holder, fin).0;
        let rest = advance_fold(prev, holder, fin).0;
        let last = active.last();
        assert forall|j: int, id: u64|
            #![trigger na[j], has_id(active, id)]
            0 <= j < na.len() && !has_id(active, id) implies na[j].cmd.id != id by {
            if j < rest.len() {
                assert(!has_id(prev, id)) by {
                    if has_id(prev, id) {
                        let i = choose|i: int| 0 <= i < prev.len() && (#[trigger] prev[i]).cmd.id
                            == id;
                        assert(active[i].cmd.id == id);
                    }
                }
                assert(na[j] == rest[j]);
                assert(rest[j].cmd.id != id);
            } else {
                assert(na[j].cmd == last.cmd);
                assert(active[active.len() - 1].cmd.id == last.cmd.id);
            }
        }
        if !(last.initialized && fin.contains(last.cmd.id)) {
            assert forall|i: int, j: int| 0 <= i < j < na.len() implies (
            #[trigger] na[i]).cmd.id != (#[trigger] na[j]).cmd.id by {
                if j < rest.len() {
                    assert(na[i] == rest[i] && na[j] == rest[j]);
                } else {
                    assert(na[j].cmd == last.cmd);
                    assert(na[i] == rest[i]);
                    let ii = choose|ii: int|
                        0 <= ii < prev.len() && (#[trigger] rest[i]).cmd == prev[ii].cmd && !(
                        prev[ii].initialized && fin.contains(prev[ii].cmd.id));
                    assert(active[ii] == prev[ii]);
                    assert(active[ii].cmd.id != active[active.len() - 1].cmd.id);
                }
            }
        }
    }
}

/// Lifecycle advancement preserves the scheduler invariant, the subsystem
/// count and the default table.
pub proof fn lemma_advance_step_wf(s: ManagerView, fin: Seq<u64>)
    requires
        s.wf(),
    ensures
        s.advance_step(fin).0.wf(),
        s.advance_step(fin).0.n() == s.n(),
        s.advance_step(fin).0.defaults == s.defaults,
{
    let s2 = s.advance_step(fin).0;
    let na = advance_fold(s.active, s.holder, fin).0;
    let h = advance_fold(s.active, s.holder, fin).1;
    lemma_advance_fold_holder(s.active, s.holder, fin);
    lemma_advance_fold_entries(s.active, s.holder, fin);
    lemma_advance_fold_unique(s.active, s.holder, fin);
    assert forall|j: int| 0 <= j < na.len() implies cmd_holds(h, (#[trigger] na[j]).cmd) by {
        let i = choose|i: int|
            0 <= i < s.active.len() && na[j].cmd == (#[trigger] s.active[i]).cmd && !(
            s.active[i].initialized && fin.contains(s.active[i].cmd.id));
        let a = s.active[i].cmd;
        assert(cmd_holds(s.holder, a));
        assert forall|k: int| 0 <= k < a.reqs.len() implies (#[trigger] a.reqs[k]) < h.len()
            && h[a.reqs[k] as int] == Some(a.id) by {
            let r = a.reqs[k] as int;
            assert(s.holder[r] == Some(a.id));
            assert(!advance_removes(s.active, fin, a.id)) by {
                if advance_removes(s.active, fin, a.id) {
                    let ii = choose|ii: int|
                        0 <= ii < s.active.len() && (#[trigger] s.active[ii]).cmd.id == a.id
                            && s.active[ii].initialized && fin.contains(a.id);
                    assert(ii == i);
                }
            }
            assert(h[r] == Some(a.id));
        }
    }
    assert forall|r: int| 0 <= r < h.len() implies ((#[trigger] h[r]) matches Some(x) ==> exists|
        j: int,
    |
        0 <= j < na.len() && (#[trigger] na[j]).cmd.id == x && na[j].cmd.reqs.contains(
            r as usize,
        )) by {
        match h[r] {
            None => {},
            Some(x) => {
                assert(s.holder[r] == Some(x));
                assert(!advance_removes(s.active, fin, x));
                let bi = choose|bi: int|
                    0 <= bi < s.active.len() && (#[trigger] s.active[bi]).cmd.id == x
                        && s.active[bi].cmd.reqs.contains(r as usize);
                assert(!(s.active[bi].initialized && fin.contains(s.active[bi].cmd.id))) by {
                    if s.active[bi].initialized && fin.contains(s.active[bi].cmd.id) {
                        assert(advance_removes(s.active, fin, x));
                    }
                }
                let j = choose|j: int| 0 <= j < na.len() && (#[trigger] na[j]).cmd
                    == s.active[bi].cmd;
                assert(na[j].cmd.id == x && na[j].cmd.reqs.contains(r as usize));
            },
        }
    }
    assert(s2.wf());
}

/// The admission step preserves the scheduler invariant.
pub proof fn lemma_schedule_step_wf(s: ManagerView, c: CommandView)
    requires
        s.wf(),
        c.valid(s.n()),
    ensures
        s.schedule_step(c).0.wf(),
{
    if s.has_active(c.id) || s.blocked(c) {
    } else {
        let s2 = s.admitted(c);
        let surv = survivors(s.active, s.holder, c.reqs);
        let newe = ActiveView { cmd: c, initialized: false };
        lemma_survivors_membership(s.active, s.holder, c.reqs);
        lemma_survivors_complete(s.active, s.holder, c.reqs);
        lemma_survivors_unique(s.active, s.holder, c.reqs);
        assert(s2.active == surv.push(newe));
        assert(s2.holder.len() == s.holder.len());
        // unique ids
        assert forall|i: int, j: int| 0 <= i < j < s2.active.len() implies (
        #[trigger] s2.active[i]).cmd.id != (#[trigger] s2.active[j]).cmd.id by {
            if j < surv.len() {
                assert(s2.active[i] == surv[i] && s2.active[j] == surv[j]);
            } else {
                assert(s2.active[j] == newe);
                assert(s2.active[i] == surv[i]);
                assert(surv[i].cmd.id != c.id);
            }
        }
        // every active command holds its subsystems
        assert forall|i: int| 0 <= i < s2.active.len() implies cmd_holds(
            s2.holder,
            (#[trigger] s2.active[i]).cmd,
        ) by {
            if i < surv.len() {
                let ii = choose|ii: int|
                    0 <= ii < s.active.len() && surv[i] == s.active[ii] && !conflicted_id(
                        s.holder,
                        c.reqs,
                        s.active[ii].cmd.id,
                    );
                let a = s.active[ii].cmd;
                assert(cmd_holds(s.holder, a));
                assert forall|k: int| 0 <= k < a.reqs.len() implies (#[trigger] a.reqs[k])
                    < s2.holder.len() && s2.holder[a.reqs[k] as int] == Some(a.id) by {
                    let r = a.reqs[k];
                    assert(s.holder[r as int] == Some(a.id));
                    if c.reqs.contains(r) {
                        let kk = choose|kk: int| 0 <= kk < c.reqs.len() && c.reqs[kk] == r;
                        assert(conflicted_id(s.holder, c.reqs, a.id));
                    }
                    assert(!c.reqs.contains(r));
                    assert(s2.holder[r as int] == Some(a.id));
                }
                assert(s2.active[i].cmd == a);
            } else {
                assert(s2.active[i] == newe);
                assert forall|k: int| 0 <= k < c.reqs.len() implies (#[trigger] c.reqs[k])
                    < s2.holder.len() && s2.holder[c.reqs[k] as int] == Some(c.id) by {
                    let r = c.reqs[k];
                    assert(c.reqs.contains(r));
                    assert(s2.holder[r as int] == Some(c.id));
                }
            }
        }
        // every held subsystem is backed
        assert forall|r: int| 0 <= r < s2.holder.len() implies ((#[trigger] s2.holder[r]) matches
        Some(x) ==> exists|i: int|
            0 <= i < s2.active.len() && (#[trigger] s2.active[i]).cmd.id == x
                && s2.active[i].cmd.reqs.contains(r as usize)) by {
            match s2.holder[r] {
                None => {},
                Some(x) => {
                if c.reqs.contains(r as usize) {
                    let i = surv.len() as int;
                    assert(s2.active[i] == newe);
                    assert(s2.active[i].cmd.id == x && s2.active[i].cmd.reqs.contains(r as usize));
                } else {
                    assert(s.holder[r] == Some(x) && !conflicted_id(s.holder, c.reqs, x));
                    let ii = choose|ii: int|
                        0 <= ii < s.active.len() && (#[trigger] s.active[ii]).cmd.id == x
                            && s.active[ii].cmd.reqs.contains(r as usize);
                    let j = choose|j: int| 0 <= j < surv.len() && surv[j] == s.active[ii];
                    assert(s2.active[j] == surv[j]);
                    assert(s2.active[j].cmd.id == x && s2.active[j].cmd.reqs.contains(r as usize));
                }
                },
            }
        }
        assert(s2.wf());
    }
}

struct ActiveEntry {
    id: u64,
    requirements: Vec<usize>,
    interruptible: bool,
    initialized: bool,
}

impl View for ActiveEntry {
    type V = ActiveView;

    closed spec fn view(&self) -> ActiveView {
        ActiveView {
            cmd: CommandView {
                id: self.id,
                reqs: self.requirements@,
                interruptible: self.interruptible,
            },
            initialized: self.initialized,
        }
    }
}

/// The tick-driven arbiter. A single authority: all admission, interruption,
/// backfill and upkeep decisions go through it, and its invariant
/// [`ManagerView::wf`] holds after every operation.
pub struct CommandManager {
    defaults: Vec<Option<Command>>,
    holder: Vec<Option<u64>>,
    active: Vec<ActiveEntry>,
}

impl View for CommandManager {
    type V = ManagerView;

    closed spec fn view(&self) -> ManagerView {
        ManagerView {
            defaults: self.defaults@.map_values(
                |o: Option<Command>|
                    match o {
                        Some(c) => Some(c@),
                        None => None,
                    },
            ),
            holder: self.holder@,
            active: self.active@.map_values(|a: ActiveEntry| a@),
        }
    }
}

/// Why a default-command registration was refused. Configuration errors are
/// detected at registration time; the scheduler refuses to proceed with
/// ambiguous scheduling semantics.
#[derive(Clone, Copy, Debug, PartialEq, Eq, Structural)]
pub enum ConfigError {
    /// The named subsystem was never registered.
    UnknownSubsystem,
    /// The subsystem already has a default command.
    DefaultAlreadySet,
    /// The command does not declare the subsystem it would be the default
    /// for (a command with an empty requirement set is never eligible).
    DoesNotRequireSubsystem,
    /// A requirement of the command names an unregistered subsystem.
    UnknownRequirement,
    /// A default command must be interruptible, or it could never yield the
    /// subsystem back.
    NotInterruptible,
}

impl CommandManager {
    /// A scheduler with no subsystems and no active commands.
    pub fn new() -> (m: Self)
        ensures
            m@ == ManagerView::empty(),
            m@.wf(),
    {
        let m = CommandManager { defaults: Vec::new(), holder: Vec::new(), active: Vec::new() };
        proof {
            assert(m@.defaults =~= Seq::<Option<CommandView>>::empty());
            assert(m@.active =~= Seq::<ActiveView>::empty());
            assert(m@ =~= ManagerView::empty());
        }
        m
    }

    /// Registers one more subsystem and returns its stable id: ids are
    /// assigned in registration order, starting from zero.
    pub fn register_subsystem(&mut self) -> (r: usize)
        requires
            old(self)@.wf(),
        ensures
            r == old(self)@.n(),
            final(self)@ == (ManagerView {
                defaults: old(self)@.defaults.push(None),
                holder: old(self)@.holder.push(None),
                active: old(self)@.active,
            }),
            final(self)@.wf(),
    {
        let r = self.holder.len();
        self.defaults.push(None);
        self.holder.push(None);
        proof {
            let old_v = old(self)@;
            let new_v = self@;
            assert(new_v.defaults =~= old_v.defaults.push(None));
            assert(new_v.active =~= old_v.active);
            assert forall|i: int| 0 <= i < new_v.active.len() implies cmd_holds(
                new_v.holder,
                (#[trigger] new_v.active[i]).cmd,
            ) by {
                assert(cmd_holds(old_v.holder, old_v.active[i].cmd));
                assert forall|k: int|
                    0 <= k < new_v.active[i].cmd.reqs.len() implies (#[trigger] new_v.active[i].cmd.reqs[k])
                    < new_v.holder.len() && new_v.holder[new_v.active[i].cmd.reqs[k] as int]
                    == Some(new_v.active[i].cmd.id) by {
                    assert(old_v.active[i].cmd.reqs[k] < old_v.holder.len());
                }
            }
            assert(new_v.wf());
        }
        r
    }

    /// The number of registered subsystems.
    pub fn num_subsystems(&self) -> (r: usize)
        ensures
            r == self@.n(),
    {
        self.holder.len()
    }

    /// Is a command with this id currently admitted?
    pub fn is_scheduled(&self, id: u64) -> (r: bool)
        ensures
            r == self@.has_active(id),
    {
        let mut i: usize = 0;
        while i < self.active.len()
            invariant
                0 <= i <= self.active.len(),
                forall|j: int| 0 <= j < i ==> (#[trigger] self@.active[j]).cmd.id != id,
                self@.active.len() == self.active.len(),
                forall|j: int| 0 <= j < self.active.len() ==> self@.active[j] == self.active@[j]@,
            decreases self.active.len() - i,
        {
            if self.active[i].id == id {
                assert(self@.active[i as int].cmd.id == id);
                return true;
            }
            i += 1;
        }
        false
    }

    /// The id of the command currently holding subsystem `r`, if any.
    pub fn holder_of(&self, r: usize) -> (h: Option<u64>)
        requires
            r < self@.n(),
        ensures
            h == self@.holder[r as int],
    {
        self.holder[r]
    }

    /// Does subsystem `r` have a registered default command?
    pub fn has_default(&self, r: usize) -> (b: bool)
        requires
            self@.wf(),
            r < self@.n(),
        ensures
            b == (self@.defaults[r as int] is Some),
    {
        proof {
            assert(self@.defaults.len() == self.defaults@.len());
            assert(self@.defaults[r as int] == match self.defaults@[r as int] {
                Some(c) => Some(c@),
                None => None::<CommandView>,
            });
        }
        self.defaults[r].is_some()
    }

    /// Registers `c` as the default command of subsystem `r`. Exactly the
    /// listed configuration errors are refused; on success the default
    /// table gains `c` and nothing else changes.
    pub fn set_default_command(&mut self, r: usize, c: Command) -> (res: Result<(), ConfigError>)
        requires
            old(self)@.wf(),
        ensures
            final(self)@.wf(),
            res matches Err(e) ==> final(self)@ == old(self)@ && match e {
                ConfigError::UnknownSubsystem => r >= old(self)@.n(),
                ConfigError::DefaultAlreadySet => r < old(self)@.n() && old(self)@.defaults[r as int] is Some,
                ConfigError::DoesNotRequireSubsystem => r < old(self)@.n() && old(self)@.defaults[r as int] is None
                    && !c@.reqs.contains(r),
                ConfigError::UnknownRequirement => r < old(self)@.n() && old(self)@.defaults[r as int] is None
                    && c@.reqs.contains(r) && !c@.valid(old(self)@.n()),
                ConfigError::NotInterruptible => r < old(self)@.n() && old(self)@.defaults[r as int] is None
                    && c@.reqs.contains(r) && c@.valid(old(self)@.n()) && !c@.interruptible,
            },
            res is Ok ==> {
                &&& r < old(self)@.n()
                &&& old(self)@.defaults[r as int] is None
                &&& c@.reqs.contains(r)
                &&& c@.valid(old(self)@.n())
                &&& c@.interruptible
                &&& final(self)@ == (ManagerView {
                    defaults: old(self)@.defaults.update(r as int, Some(c@)),
                    holder: old(self)@.holder,
                    active: old(self)@.active,
                })
            },
    {
        if r >= self.holder.len() {
            return Err(ConfigError::UnknownSubsystem);
        }
        proof {
            assert(self@.defaults.len() == self.defaults@.len());
        }
        let already = self.defaults[r].is_some();
        proof {
            assert(self@.defaults[r as int] == match self.defaults@[r as int] {
                Some(d) => Some(d@),
                None => None::<CommandView>,
            });
        }
        if already {
            return Err(ConfigError::DefaultAlreadySet);
        }
        if !vec_contains_usize(c.requirements(), r) {
            return Err(ConfigError::DoesNotRequireSubsystem);
        }
        if !self.requirements_registered(c.requirements()) {
            return Err(ConfigError::UnknownRequirement);
        }
        if !c.is_interruptible() {
            return Err(ConfigError::NotInterruptible);
        }
        let ghost old_v = self@;
        let ghost cv = c@;
        self.defaults[r] = Some(c);
        proof {
            let new_v = self@;
            assert(new_v.defaults =~= old_v.defaults.update(r as int, Some(cv)));
            assert(new_v.holder == old_v.holder);
            assert(new_v.active == old_v.active);
            assert forall|rr: int|
                0 <= rr < new_v.defaults.len() implies ((#[trigger] new_v.defaults[rr]) matches Some(
                d,
            ) ==> {
                &&& d.valid(new_v.n())
                &&& d.reqs.contains(rr as usize)
                &&& d.interruptible
            }) by {
                if rr == r as int {
                    assert(new_v.defaults[rr] == Some(cv));
                } else {
                    assert(new_v.defaults[rr] == old_v.defaults[rr]);
                }
            }
            assert(new_v.wf());
        }
        Ok(())
    }

    /// The index of the active command with this id, if any.
    fn find_by_id(&self, id: u64) -> (res: Option<usize>)
        ensures
            match res {
                Some(i) => 0 <= i < self@.active.len() && self@.active[i as int].cmd.id == id,
                None => !has_id(self@.active, id),
            },
    {
        let mut i: usize = 0;
        while i < self.active.len()
            invariant
                0 <= i <= self.active@.len(),
                self@.active.len() == self.active@.len(),
                forall|j: int|
                    0 <= j < self.active@.len() ==> self@.active[j] == (
                    #[trigger] self.active@[j])@,
                forall|j: int| 0 <= j < i ==> (#[trigger] self@.active[j]).cmd.id != id,
            decreases self.active@.len() - i,
        {
            if self.active[i].id == id {
                return Some(i);
            }
            i += 1;
        }
        None
    }

    /// Does the holder table map some subsystem in `reqs` to the command
    /// `id`?
    fn holds_any(&self, reqs: &Vec<usize>, id: u64) -> (b: bool)
        requires
            crate::command::reqs_valid(reqs@, self@.n()),
        ensures
            b == conflicted_id(self@.holder, reqs@, id),
    {
        proof {
            assert(self@.holder == self.holder@);
        }
        let mut k: usize = 0;
        while k < reqs.len()
            invariant
                0 <= k <= reqs@.len(),
                crate::command::reqs_valid(reqs@, self@.n()),
                self@.holder == self.holder@,
                forall|kk: int|
                    0 <= kk < k ==> !((#[trigger] self@.holder[reqs@[kk] as int]) == Some(id)),
            decreases reqs@.len() - k,
        {
            let r = reqs[k];
            assert(r < self.holder.len());
            if let Some(d) = self.holder[r] {
                if d == id {
                    proof {
                        assert(conflicted_id(self@.holder, reqs@, id)) by {
                            assert(reqs@[k as int] == r && self@.holder[r as int] == Some(id));
                        }
                    }
                    return true;
                }
            }
            k += 1;
        }
        proof {
            if conflicted_id(self@.holder, reqs@, id) {
                let kk = choose|kk: int|
                    #![trigger reqs@[kk]]
                    0 <= kk < reqs@.len() && reqs@[kk] < self@.holder.len()
                        && self@.holder[reqs@[kk] as int] == Some(id);
                assert(false);
            }
        }
        false
    }

    /// Admits `c` under the conflict-resolution policy and returns the
    /// lifecycle events the caller must now perform: one interrupted `End`
    /// per pre-empted holder, in admission order. Scheduling an already
    /// active command is an idempotent no-op; scheduling against a
    /// non-interruptible holder is a silent, complete no-op. Both return no
    /// events and change no state; otherwise the state and the events are
    /// exactly [`ManagerView::schedule_step`].
    pub fn schedule(&mut self, c: &Command) -> (evs: Vec<Event>)
        requires
            old(self)@.wf(),
            c@.valid(old(self)@.n()),
        ensures
            final(self)@.wf(),
            final(self)@ == old(self)@.schedule_step(c@).0,
            evs@ == old(self)@.schedule_step(c@).1,
    {
        let ghost s0 = self@;
        let ghost oa = s0.active;
        let ghost oh = s0.holder;
        let ghost creqs = c@.reqs;
        let cid = c.id();
        if self.is_scheduled(cid) {
            let evs: Vec<Event> = Vec::new();
            proof {
                assert(evs@ =~= Seq::<Event>::empty());
                lemma_schedule_step_wf(s0, c@);
            }
            return evs;
        }
        let reqs = c.requirements();
        // First pass: admission is refused outright if any conflicting
        // holder is non-interruptible.
        let mut k: usize = 0;
        while k < reqs.len()
            invariant
                0 <= k <= reqs@.len(),
                self@ == s0,
                s0.wf(),
                c@.valid(s0.n()),
                reqs@ == creqs,
                creqs == c@.reqs,
                cid == c@.id,
                oa == s0.active,
                oh == s0.holder,
                forall|kk: int|
                    0 <= kk < k ==> ((#[trigger] oh[creqs[kk] as int]) matches Some(d)
                        ==> exists|ii: int|
                        0 <= ii < oa.len() && (#[trigger] oa[ii]).cmd.id == d
                            && oa[ii].cmd.interruptible),
            decreases reqs@.len() - k,
        {
            let r = reqs[k];
            proof {
                assert(self@.holder == self.holder@);
                assert(creqs[k as int] < s0.n());
            }
            if let Some(d) = self.holder[r] {
                match self.find_by_id(d) {
                    Some(ai) => {
                        let inter = self.active[ai].interruptible;
                        proof {
                            assert(self@.active[ai as int] == self.active@[ai as int]@);
                        }
                        if !inter {
                            proof {
                                assert(conflicted_id(oh, creqs, d)) by {
                                    assert(creqs[k as int] == r && oh[r as int] == Some(d));
                                }
                                assert(s0.blocked(c@));
                                lemma_schedule_step_wf(s0, c@);
                            }
                            let evs: Vec<Event> = Vec::new();
                            proof {
                                assert(evs@ =~= Seq::<Event>::empty());
                            }
                            return evs;
                        }
                    },
                    None => {
                        proof {
                            assert(self@.holder[r as int] == Some(d));
                            assert(false);
                        }
                    },
                }
            }
            k += 1;
        }
        proof {
            if s0.blocked(c@) {
                let ii = choose|ii: int|
                    0 <= ii < oa.len() && conflicted_id(oh, creqs, (#[trigger] oa[ii]).cmd.id)
                        && !oa[ii].cmd.interruptible;
                let kk = choose|kk: int|
                    #![trigger creqs[kk]]
                    0 <= kk < creqs.len() && creqs[kk] < oh.len() && oh[creqs[kk] as int] == Some(
                        oa[ii].cmd.id,
                    );
                let jj = choose|jj: int|
                    0 <= jj < oa.len() && (#[trigger] oa[jj]).cmd.id == oa[ii].cmd.id
                        && oa[jj].cmd.interruptible;
                assert(ii == jj);
                assert(false);
            }
        }
        // Second pass: remove every conflicting holder, releasing its
        // subsystems and emitting its interrupted teardown.
        let mut kept: Vec<ActiveEntry> = Vec::new();
        let mut evs: Vec<Event> = Vec::new();
        let ghost mut i: int = 0;
        let nn = self.holder.len();
        proof {
            assert(oh.len() == nn);
        }
        proof {
            assert(oa.subrange(0, 0) =~= Seq::<ActiveView>::empty());
            assert(kept@.map_values(|a: ActiveEntry| a@) =~= survivors(
                oa.subrange(0, 0),
                oh,
                creqs,
            ));
            assert(evs@ =~= interruption_events(oa.subrange(0, 0), oh, creqs));
            assert(self.active@.map_values(|a: ActiveEntry| a@) =~= oa.subrange(
                0,
                oa.len() as int,
            ));
        }
        while self.active.len() > 0
            invariant
                s0.wf(),
                c@.valid(s0.n()),
                oa == s0.active,
                oh == s0.holder,
                creqs == c@.reqs,
                reqs@ == creqs,
                cid == c@.id,
                !has_id(oa, cid),
                !s0.blocked(c@),
                0 <= i <= oa.len(),
                i == oa.len() - self.active@.len(),
                oh.len() <= usize::MAX,
                self@.defaults == s0.defaults,
                self.active@.map_values(|a: ActiveEntry| a@) == oa.subrange(i, oa.len() as int),
                kept@.map_values(|a: ActiveEntry| a@) == survivors(oa.subrange(0, i), oh, creqs),
                evs@ == interruption_events(oa.subrange(0, i), oh, creqs),
                self.holder@.len() == oh.len(),
                forall|r: int|
                    0 <= r < oh.len() ==> (#[trigger] self.holder@[r]) == (if oh[r] matches Some(d)
                    && conflicted_id(oh, creqs, d) && has_id(
                        oa.subrange(0, i),
                        d,
                    ) {
                        None::<u64>
                    } else {
                        oh[r]
                    }),
            decreases self.active@.len(),
        {
            proof {
                assert(self.active@.map_values(|a: ActiveEntry| a@)[0] == oa.subrange(
                    i,
                    oa.len() as int,
                )[0]);
            }
            let ghost pre_active = self.active@;
            let e = self.active.remove(0);
            let ghost eid = e@.cmd.id;
            proof {
                assert(e@ == oa[i]);
                assert(cmd_holds(oh, oa[i].cmd));
                assert(self.active@.map_values(|a: ActiveEntry| a@) =~= oa.subrange(
                    i + 1,
                    oa.len() as int,
                )) by {
                    assert(self.active@ =~= pre_active.subrange(1, pre_active.len() as int));
                    assert forall|j: int|
                        0 <= j < self.active@.len() implies (#[trigger] self.active@[j])@
                        == oa.subrange(i + 1, oa.len() as int)[j] by {
                        assert(self.active@[j] == pre_active[j + 1]);
                        assert(pre_active.map_values(|a: ActiveEntry| a@)[j + 1] == oa.subrange(
                            i,
                            oa.len() as int,
                        )[j + 1]);
                    }
                }
            }
            let conf = self.holds_any(reqs, e.id);
            proof {
                assert(eid == e.id);
                assert(!has_id(oa.subrange(0, i), eid)) by {
                    if has_id(oa.subrange(0, i), eid) {
                        let jj = choose|jj: int|
                            0 <= jj < oa.subrange(0, i).len() && (#[trigger] oa.subrange(0, i)[jj]).cmd.id
                                == eid;
                        assert(oa[jj].cmd.id == eid && oa[i].cmd.id == eid);
                        assert(false);
                    }
                };
                assert(conflicted_id(self.holder@, creqs, eid) == conflicted_id(oh, creqs, eid))
                    by {
                    if conflicted_id(self.holder@, creqs, eid) {
                        let kk = choose|kk: int|
                            #![trigger creqs[kk]]
                            0 <= kk < creqs.len() && creqs[kk] < self.holder@.len()
                                && self.holder@[creqs[kk] as int] == Some(eid);
                        assert(self.holder@[creqs[kk] as int] == oh[creqs[kk] as int]);
                        assert(conflicted_id(oh, creqs, eid));
                    }
                    if conflicted_id(oh, creqs, eid) {
                        let kk = choose|kk: int|
                            #![trigger creqs[kk]]
                            0 <= kk < creqs.len() && creqs[kk] < oh.len() && oh[creqs[kk] as int]
                                == Some(eid);
                        assert(self.holder@[creqs[kk] as int] == oh[creqs[kk] as int]);
                        assert(conflicted_id(self.holder@, creqs, eid));
                    }
                };
            }
            if conf {
                evs.push(Event::End { id: e.id, interrupted: true });
                let ghost pre_inner = self.holder@;
                let ghost after_remove_active = self.active@;
                let mut kk: usize = 0;
                while kk < e.requirements.len()
                    invariant
                        0 <= kk <= e.requirements@.len(),
                        cmd_holds(oh, e@.cmd),
                        eid == e@.cmd.id,
                        oh.len() == pre_inner.len(),
                        self.active@ == after_remove_active,
                        self@.defaults == s0.defaults,
                        self.holder@.len() == oh.len(),
                        forall|rr: int|
                            0 <= rr < oh.len() ==> (#[trigger] self.holder@[rr]) == (
                            if exists|kx: int|
                                0 <= kx < kk && e.requirements@[kx] == rr {
                                None::<u64>
                            } else {
                                pre_inner[rr]
                            }),
                    decreases e.requirements@.len() - kk,
                {
                    let rr = e.requirements[kk];
                    proof {
                        assert(e@.cmd.reqs[kk as int] == rr);
                        assert(rr < oh.len());
                    }
                    let ghost pre_step = self.holder@;
                    self.holder[rr] = None;
                    kk += 1;
                    proof {
                        assert forall|r2: int| 0 <= r2 < oh.len() implies (
                        #[trigger] self.holder@[r2]) == (if exists|kx: int|
                            0 <= kx < kk && e.requirements@[kx] == r2 {
                            None::<u64>
                        } else {
                            pre_inner[r2]
                        }) by {
                            if r2 == rr as int {
                                assert(e.requirements@[kk - 1] == rr);
                            } else {
                                assert(self.holder@[r2] == pre_step[r2]);
                                if exists|kx: int| 0 <= kx < kk && e.requirements@[kx] == r2 {
                                    let kx = choose|kx: int|
                                        0 <= kx < kk && (#[trigger] e.requirements@[kx]) == r2;
                                    assert(kx < kk - 1);
                                }
                            }
                        }
                    }
                }
                proof {
                    let prefix1 = oa.subrange(0, i + 1);
                    assert(prefix1.drop_last() =~= oa.subrange(0, i));
                    assert(prefix1.last() == oa[i]);
                    assert(conflicted_id(oh, creqs, oa[i].cmd.id));
                    assert(evs@ == interruption_events(prefix1, oh, creqs));
                    assert(kept@.map_values(|a: ActiveEntry| a@) == survivors(prefix1, oh, creqs));
                    // the holder table now reflects one more processed command
                    assert forall|r: int| 0 <= r < oh.len() implies (#[trigger] self.holder@[r])
                        == (if oh[r] matches Some(d) && conflicted_id(oh, creqs, d) && has_id(
                        prefix1,
                        d,
                    ) {
                        None::<u64>
                    } else {
                        oh[r]
                    }) by {
                        if exists|kx: int|
                            0 <= kx < e.requirements@.len() && e.requirements@[kx] == r {
                            let kx = choose|kx: int|
                                0 <= kx < e.requirements@.len() && (#[trigger] e.requirements@[kx])
                                    == r;
                            assert(e@.cmd.reqs[kx] == r as usize);
                            assert(oh[r] == Some(eid));
                            assert(has_id(prefix1, eid)) by {
                                assert(prefix1[i] == oa[i]);
                            }
                            assert(self.holder@[r] == None::<u64>);
                        } else {
                            assert(self.holder@[r] == pre_inner[r]);
                            match oh[r] {
                                None => {},
                                Some(d) => {
                                    if d == eid {
                                        let bi = choose|bi: int|
                                            0 <= bi < oa.len() && (#[trigger] oa[bi]).cmd.id == d
                                                && oa[bi].cmd.reqs.contains(r as usize);
                                        assert(bi == i);
                                        let kx = choose|kx: int|
                                            0 <= kx < oa[i].cmd.reqs.len() && (
                                            #[trigger] oa[i].cmd.reqs[kx]) == r as usize;
                                        assert(e.requirements@[kx] == r);
                                        assert(false);
                                    }
                                    assert(has_id(prefix1, d) == has_id(oa.subrange(0, i), d))
                                        by {
                                        if has_id(prefix1, d) {
                                            let jj = choose|jj: int|
                                                0 <= jj < prefix1.len() && (
                                                #[trigger] prefix1[jj]).cmd.id == d;
                                            if jj < i {
                                                assert(oa.subrange(0, i)[jj] == prefix1[jj]);
                                            } else {
                                                assert(prefix1[jj] == oa[i]);
                                                assert(false);
                                            }
                                        }
                                        if has_id(oa.subrange(0, i), d) {
                                            let jj = choose|jj: int|
                                                0 <= jj < oa.subrange(0, i).len() && (
                                                #[trigger] oa.subrange(0, i)[jj]).cmd.id == d;
                                            assert(prefix1[jj] == oa.subrange(0, i)[jj]);
                                        }
                                    }
                                },
                            }
                        }
                    }
                    i = i + 1;
                }
            } else {
                let ghost pre_kept = kept@;
                kept.push(e);
                proof {
                    let prefix1 = oa.subrange(0, i + 1);
                    assert(prefix1.drop_last() =~= oa.subrange(0, i));
                    assert(prefix1.last() == oa[i]);
                    assert(!conflicted_id(oh, creqs, oa[i].cmd.id));
                    assert(kept@.map_values(|a: ActiveEntry| a@) =~= survivors(
                        prefix1,
                        oh,
                        creqs,
                    )) by {
                        assert(kept@ == pre_kept.push(e));
                        assert forall|j: int|
                            0 <= j < kept@.len() implies (#[trigger] kept@[j])@ == survivors(
                            prefix1,
                            oh,
                            creqs,
                        )[j] by {
                            if j < pre_kept.len() {
                                assert(kept@[j] == pre_kept[j]);
                                assert(pre_kept.map_values(|a: ActiveEntry| a@)[j] == survivors(
                                    oa.subrange(0, i),
                                    oh,
                                    creqs,
                                )[j]);
                            } else {
                                assert(kept@[j] == e);
                            }
                        }
                    };
                    assert(evs@ == interruption_events(prefix1, oh, creqs));
                    assert forall|r: int| 0 <= r < oh.len() implies (#[trigger] self.holder@[r])
                        == (if oh[r] matches Some(d) && conflicted_id(oh, creqs, d) && has_id(
                        prefix1,
                        d,
                    ) {
                        None::<u64>
                    } else {
                        oh[r]
                    }) by {
                        match oh[r] {
                            None => {},
                            Some(d) => {
                                if d == eid {
                                    assert(!conflicted_id(oh, creqs, d));
                                } else {
                                    assert(has_id(prefix1, d) == has_id(oa.subrange(0, i), d))
                                        by {
                                        if has_id(prefix1, d) {
                                            let jj = choose|jj: int|
                                                0 <= jj < prefix1.len() && (
                                                #[trigger] prefix1[jj]).cmd.id == d;
                                            if jj < i {
                                                assert(oa.subrange(0, i)[jj] == prefix1[jj]);
                                            } else {
                                                assert(prefix1[jj] == oa[i]);
                                                assert(false);
                                            }
                                        }
                                        if has_id(oa.subrange(0, i), d) {
                                            let jj = choose|jj: int|
                                                0 <= jj < oa.subrange(0, i).len() && (
                                                #[trigger] oa.subrange(0, i)[jj]).cmd.id == d;
                                            assert(prefix1[jj] == oa.subrange(0, i)[jj]);
                                        }
                                    }
                                }
                            },
                        }
                    }
                    i = i + 1;
                }
            }
        }
        proof {
            assert(i == oa.len());
            assert(oa.subrange(0, i) =~= oa);
        }
        // Third pass: the admitted command claims every subsystem it
        // declares.
        let ghost mid = self.holder@;
        let mut k2: usize = 0;
        while k2 < reqs.len()
            invariant
                0 <= k2 <= creqs.len(),
                reqs@ == creqs,
                creqs == c@.reqs,
                cid == c@.id,
                c@.valid(s0.n()),
                oh == s0.holder,
                oh.len() <= usize::MAX,
                mid.len() == oh.len(),
                self@.defaults == s0.defaults,
                self.holder@.len() == oh.len(),
                forall|r: int|
                    0 <= r < oh.len() ==> (#[trigger] self.holder@[r]) == (if exists|kx: int|
                        0 <= kx < k2 && creqs[kx] == r {
                        Some(cid)
                    } else {
                        mid[r]
                    }),
            decreases creqs.len() - k2,
        {
            let rr = reqs[k2];
            proof {
                assert(creqs[k2 as int] == rr && rr < oh.len());
            }
            let ghost pre_step = self.holder@;
            self.holder[rr] = Some(cid);
            k2 += 1;
            proof {
                assert forall|r2: int| 0 <= r2 < oh.len() implies (#[trigger] self.holder@[r2])
                    == (if exists|kx: int| 0 <= kx < k2 && creqs[kx] == r2 {
                    Some(cid)
                } else {
                    mid[r2]
                }) by {
                    if r2 == rr as int {
                        assert(creqs[k2 - 1] == rr);
                    } else {
                        assert(self.holder@[r2] == pre_step[r2]);
                        if exists|kx: int| 0 <= kx < k2 && creqs[kx] == r2 {
                            let kx = choose|kx: int| 0 <= kx < k2 && (#[trigger] creqs[kx]) == r2;
                            assert(kx < k2 - 1);
                        }
                    }
                }
            }
        }
        // Fourth pass: the admitted command joins the active commands as a
        // new entrant.
        let entry = ActiveEntry {
            id: cid,
            requirements: reqs.clone(),
            interruptible: c.is_interruptible(),
            initialized: false,
        };
        proof {
            assert(entry.requirements@ =~= creqs);
            assert(entry@ == ActiveView { cmd: c@, initialized: false });
        }
        let ghost pre_kept = kept@;
        kept.push(entry);
        self.active = kept;
        proof {
            let s2 = s0.admitted(c@);
            assert(self.holder@ =~= s2.holder) by {
                assert forall|r: int| 0 <= r < oh.len() implies self.holder@[r] == s2.holder[r] by {
                    if creqs.contains(r as usize) {
                        let kx = choose|kx: int|
                            0 <= kx < creqs.len() && (#[trigger] creqs[kx]) == r as usize;
                        assert(self.holder@[r] == Some(cid));
                    } else {
                        assert(!(exists|kx: int| 0 <= kx < creqs.len() && creqs[kx] == r)) by {
                            if exists|kx: int| 0 <= kx < creqs.len() && creqs[kx] == r {
                                let kx = choose|kx: int|
                                    0 <= kx < creqs.len() && (#[trigger] creqs[kx]) == r;
                                assert(creqs.contains(r as usize));
                            }
                        }
                        assert(self.holder@[r] == mid[r]);
                        match oh[r] {
                            None => {},
                            Some(d) => {
                                if conflicted_id(oh, creqs, d) {
                                    assert(has_id(oa, d));
                                }
                            },
                        }
                    }
                }
            };
            assert(self.active@.map_values(|a: ActiveEntry| a@) =~= s2.active) by {
                let surv = survivors(oa, oh, creqs);
                assert(pre_kept.map_values(|a: ActiveEntry| a@) == surv);
                assert forall|j: int|
                    0 <= j < self.active@.len() implies (#[trigger] self.active@[j])@
                    == s2.active[j] by {
                    if j < pre_kept.len() {
                        assert(self.active@[j] == pre_kept[j]);
                        assert(pre_kept.map_values(|a: ActiveEntry| a@)[j] == surv[j]);
                    } else {
                        assert(self.active@[j] == entry);
                    }
                }
            };
            assert(self@ =~= s2);
            assert(evs@ == s0.schedule_step(c@).1);
            lemma_schedule_step_wf(s0, c@);
        }
        evs
    }

    /// Cancels the command with this id: if it is active it ends
    /// interrupted, no later than now, regardless of its finish predicate,
    /// and releases every subsystem it held. Cancelling an inactive id is a
    /// no-op. The state and the returned events are exactly
    /// [`ManagerView::cancel_step`].
    pub fn cancel(&mut self, id: u64) -> (evs: Vec<Event>)
        requires
            old(self)@.wf(),
        ensures
            final(self)@.wf(),
            final(self)@ == old(self)@.cancel_step(id).0,
            evs@ == old(self)@.cancel_step(id).1,
    {
        let ghost s0 = self@;
        let ghost oa = s0.active;
        let ghost oh = s0.holder;
        match self.find_by_id(id) {
            None => {
                let evs: Vec<Event> = Vec::new();
                proof {
                    assert(evs@ =~= Seq::<Event>::empty());
                    lemma_cancel_step_wf(s0, id);
                }
                evs
            },
            Some(idx) => {
                let nn = self.holder.len();
                proof {
                    assert(oh.len() == nn);
                    assert(s0.has_active(id));
                }
                let ghost pre_active = self.active@;
                let e = self.active.remove(idx);
                proof {
                    assert(e@ == oa[idx as int]);
                    assert(cmd_holds(oh, oa[idx as int].cmd));
                    lemma_remove_id_at(oa, id, idx as int);
                    assert(self.active@.map_values(|a: ActiveEntry| a@) =~= remove_id(oa, id)) by {
                        assert forall|j: int|
                            0 <= j < self.active@.len() implies (#[trigger] self.active@[j])@
                            == remove_id(oa, id)[j] by {
                            if j < idx {
                                assert(self.active@[j] == pre_active[j]);
                                assert(pre_active.map_values(|a: ActiveEntry| a@)[j] == oa[j]);
                                assert((oa.subrange(0, idx as int) + oa.subrange(
                                    idx + 1,
                                    oa.len() as int,
                                ))[j] == oa[j]);
                            } else {
                                assert(self.active@[j] == pre_active[j + 1]);
                                assert(pre_active.map_values(|a: ActiveEntry| a@)[j + 1] == oa[j
                                    + 1]);
                                assert((oa.subrange(0, idx as int) + oa.subrange(
                                    idx + 1,
                                    oa.len() as int,
                                ))[j] == oa[j + 1]);
                            }
                        }
                    }
                }
                let ghost after_remove_active = self.active@;
                let mut kk: usize = 0;
                while kk < e.requirements.len()
                    invariant
                        0 <= kk <= e.requirements@.len(),
                        cmd_holds(oh, e@.cmd),
                        id == e@.cmd.id,
                        self.active@ == after_remove_active,
                        self@.defaults == s0.defaults,
                        self.holder@.len() == oh.len(),
                        forall|rr: int|
                            0 <= rr < oh.len() ==> (#[trigger] self.holder@[rr]) == (
                            if exists|kx: int|
                                0 <= kx < kk && e.requirements@[kx] == rr {
                                None::<u64>
                            } else {
                                oh[rr]
                            }),
                    decreases e.requirements@.len() - kk,
                {
                    let rr = e.requirements[kk];
                    proof {
                        assert(e@.cmd.reqs[kk as int] == rr);
                        assert(rr < oh.len());
                    }
                    let ghost pre_step = self.holder@;
                    self.holder[rr] = None;
                    kk += 1;
                    proof {
                        assert forall|r2: int| 0 <= r2 < oh.len() implies (
                        #[trigger] self.holder@[r2]) == (if exists|kx: int|
                            0 <= kx < kk && e.requirements@[kx] == r2 {
                            None::<u64>
                        } else {
                            oh[r2]
                        }) by {
                            if r2 == rr as int {
                                assert(e.requirements@[kk - 1] == rr);
                            } else {
                                assert(self.holder@[r2] == pre_step[r2]);
                                if exists|kx: int| 0 <= kx < kk && e.requirements@[kx] == r2 {
                                    let kx = choose|kx: int|
                                        0 <= kx < kk && (#[trigger] e.requirements@[kx]) == r2;
                                    assert(kx < kk - 1);
                                }
                            }
                        }
                    }
                }
                let mut evs: Vec<Event> = Vec::new();
                evs.push(Event::End { id, interrupted: true });
                proof {
                    assert(self.holder@ =~= clear_id(oh, id)) by {
                        assert forall|r: int| 0 <= r < oh.len() implies self.holder@[r] == clear_id(
                            oh,
                            id,
                        )[r] by {
                            if exists|kx: int|
                                0 <= kx < e.requirements@.len() && e.requirements@[kx] == r {
                                let kx = choose|kx: int|
                                    0 <= kx < e.requirements@.len() && (
                                    #[trigger] e.requirements@[kx]) == r;
                                assert(e@.cmd.reqs[kx] == r as usize);
                                assert(oh[r] == Some(id));
                            } else {
                                if oh[r] == Some(id) {
                                    let bi = choose|bi: int|
                                        0 <= bi < oa.len() && (#[trigger] oa[bi]).cmd.id == id
                                            && oa[bi].cmd.reqs.contains(r as usize);
                                    assert(bi == idx);
                                    let kx = choose|kx: int|
                                        0 <= kx < oa[idx as int].cmd.reqs.len() && (
                                        #[trigger] oa[idx as int].cmd.reqs[kx]) == r as usize;
                                    assert(e.requirements@[kx] == r);
                                    assert(false);
                                }
                            }
                        }
                    }
                    assert(evs@ =~= seq![Event::End { id, interrupted: true }]);
                    assert(self@ =~= s0.cancel_step(id).0);
                    lemma_cancel_step_wf(s0, id);
                }
                evs
            },
        }
    }

    /// Executes one full cycle in the fixed order that is itself part of
    /// the contract: first every request is admitted or cancelled under the
    /// conflict-resolution policy, then every active command advances its
    /// lifecycle by exactly one step (new entrants run their one-time
    /// setup; running commands execute once and end uninterrupted when
    /// their id is in `finished`), then every subsystem with a registered
    /// default command and no holder has its default admitted, and finally
    /// every registered subsystem's periodic upkeep is ordered exactly
    /// once. The state and the returned events are exactly
    /// [`ManagerView::run_spec`].
    ///
    /// `finished` lists the ids whose finish predicate holds this cycle;
    /// the caller evaluates the predicates, as it performs all lifecycle
    /// calls the returned events name.
    pub fn run(&mut self, requests: &Vec<Request>, finished: &Vec<u64>) -> (evs: Vec<Event>)
        requires
            old(self)@.wf(),
            forall|q: int|
                0 <= q < requests@.len() ==> ((#[trigger] requests@[q])@ matches
                    RequestView::Schedule(c) ==> c.valid(old(self)@.n())),
        ensures
            final(self)@.wf(),
            final(self)@ == old(self)@.run_spec(request_views(requests@), finished@).0,
            evs@ == old(self)@.run_spec(request_views(requests@), finished@).1,
    {
        let ghost s0 = self@;
        let ghost qs = request_views(requests@);
        let mut evs: Vec<Event> = Vec::new();
        // Phase one: the cycle's schedule and cancel requests, in order.
        let mut qi: usize = 0;
        proof {
            assert(qs.subrange(0, 0) =~= Seq::<RequestView>::empty());
            assert(evs@ =~= Seq::<Event>::empty());
        }
        while qi < requests.len()
            invariant
                0 <= qi <= requests@.len(),
                qs == request_views(requests@),
                s0.wf(),
                self@.wf(),
                forall|q: int|
                    0 <= q < requests@.len() ==> ((#[trigger] requests@[q])@ matches
                        RequestView::Schedule(c) ==> c.valid(s0.n())),
                self@.n() == s0.n(),
                self@ == s0.requests_fold(qs.subrange(0, qi as int)).0,
                evs@ == s0.requests_fold(qs.subrange(0, qi as int)).1,
            decreases requests@.len() - qi,
        {
            let ghost prev = self@;
            let ghost prev_evs = evs@;
            match &requests[qi] {
                Request::Schedule(cc) => {
                    proof {
                        assert(requests@[qi as int]@ == RequestView::Schedule(cc@));
                        assert(cc@.valid(prev.n()));
                    }
                    let mut es = self.schedule(cc);
                    evs.append(&mut es);
                    proof {
                        assert(self@ == prev.request_step(qs[qi as int]).0);
                        assert(evs@ == prev_evs + prev.request_step(qs[qi as int]).1);
                    }
                },
                Request::Cancel(cid2) => {
                    proof {
                        assert(requests@[qi as int]@ == RequestView::Cancel(*cid2));
                    }
                    let mut es = self.cancel(*cid2);
                    evs.append(&mut es);
                    proof {
                        assert(self@ == prev.request_step(qs[qi as int]).0);
                        assert(evs@ == prev_evs + prev.request_step(qs[qi as int]).1);
                    }
                },
            }
            proof {
                assert(qs.subrange(0, qi + 1).drop_last() =~= qs.subrange(0, qi as int));
                assert(qs.subrange(0, qi + 1).last() == qs[qi as int]);
                assert(self@ == s0.requests_fold(qs.subrange(0, qi + 1)).0);
                assert(evs@ == s0.requests_fold(qs.subrange(0, qi + 1)).1);
                assert(self@.n() == prev.n());
            }
            qi += 1;
        }
        let ghost s1 = self@;
        let ghost oa1 = s1.active;
        let ghost oh1 = s1.holder;
        let ghost fin = finished@;
        let ghost evs1 = evs@;
        proof {
            assert(qs.subrange(0, requests@.len() as int) =~= qs);
            assert(s1 == s0.requests_fold(qs).0);
            assert(evs1 == s0.requests_fold(qs).1);
        }
        // Phase two: every active command advances its lifecycle by exactly
        // one step, in admission order.
        let nn = self.holder.len();
        let mut kept: Vec<ActiveEntry> = Vec::new();
        let ghost mut i: int = 0;
        proof {
            assert(oh1.len() == nn);
            assert(oa1.subrange(0, 0) =~= Seq::<ActiveView>::empty());
            assert(kept@.map_values(|a: ActiveEntry| a@) =~= advance_fold(
                oa1.subrange(0, 0),
                oh1,
                fin,
            ).0);
            assert(self.active@.map_values(|a: ActiveEntry| a@) =~= oa1.subrange(
                0,
                oa1.len() as int,
            ));
            assert(evs@ =~= evs1 + advance_fold(oa1.subrange(0, 0), oh1, fin).2);
        }
        while self.active.len() > 0
            invariant
                s1.wf(),
                oa1 == s1.active,
                oh1 == s1.holder,
                fin == finished@,
                0 <= i <= oa1.len(),
                i == oa1.len() - self.active@.len(),
                oh1.len() <= usize::MAX,
                self@.defaults == s1.defaults,
                self.active@.map_values(|a: ActiveEntry| a@) == oa1.subrange(i, oa1.len() as int),
                kept@.map_values(|a: ActiveEntry| a@) == advance_fold(
                    oa1.subrange(0, i),
                    oh1,
                    fin,
                ).0,
                self.holder@ == advance_fold(oa1.subrange(0, i), oh1, fin).1,
                evs@ == evs1 + advance_fold(oa1.subrange(0, i), oh1, fin).2,
            decreases self.active@.len(),
        {
            proof {
                assert(self.active@.map_values(|a: ActiveEntry| a@)[0] == oa1.subrange(
                    i,
                    oa1.len() as int,
                )[0]);
                lemma_advance_fold_holder(oa1.subrange(0, i), oh1, fin);
            }
            let ghost pre_active = self.active@;
            let ghost h1 = self.holder@;
            let e = self.active.remove(0);
            let ghost eid = e@.cmd.id;
            proof {
                assert(e@ == oa1[i]);
                assert(cmd_holds(oh1, oa1[i].cmd));
                assert(self.active@.map_values(|a: ActiveEntry| a@) =~= oa1.subrange(
                    i + 1,
                    oa1.len() as int,
                )) by {
                    assert forall|j: int|
                        0 <= j < self.active@.len() implies (#[trigger] self.active@[j])@
                        == oa1.subrange(i + 1, oa1.len() as int)[j] by {
                        assert(self.active@[j] == pre_active[j + 1]);
                        assert(pre_active.map_values(|a: ActiveEntry| a@)[j + 1] == oa1.subrange(
                            i,
                            oa1.len() as int,
                        )[j + 1]);
                    }
                }
                assert(oa1.subrange(0, i + 1).drop_last() =~= oa1.subrange(0, i));
                assert(oa1.subrange(0, i + 1).last() == oa1[i]);
            }
            if !e.initialized {
                evs.push(Event::Initialize { id: e.id });
                let e2 = ActiveEntry {
                    id: e.id,
                    requirements: e.requirements,
                    interruptible: e.interruptible,
                    initialized: true,
                };
                let ghost pre_kept = kept@;
                kept.push(e2);
                proof {
                    assert(e2@ == ActiveView { cmd: oa1[i].cmd, initialized: true });
                    assert(kept@.map_values(|a: ActiveEntry| a@) =~= advance_fold(
                        oa1.subrange(0, i + 1),
                        oh1,
                        fin,
                    ).0) by {
                        assert forall|j: int|
                            0 <= j < kept@.len() implies (#[trigger] kept@[j])@ == advance_fold(
                            oa1.subrange(0, i + 1),
                            oh1,
                            fin,
                        ).0[j] by {
                            if j < pre_kept.len() {
                                assert(kept@[j] == pre_kept[j]);
                                assert(pre_kept.map_values(|a: ActiveEntry| a@)[j] == advance_fold(
                                    oa1.subrange(0, i),
                                    oh1,
                                    fin,
                                ).0[j]);
                            } else {
                                assert(kept@[j] == e2);
                            }
                        }
                    }
                    assert(evs@ == evs1 + advance_fold(oa1.subrange(0, i + 1), oh1, fin).2);
                    assert(self.holder@ == advance_fold(oa1.subrange(0, i + 1), oh1, fin).1);
                    i = i + 1;
                }
            } else {
                evs.push(Event::Execute { id: e.id });
                if vec_contains_u64(finished, e.id) {
                    evs.push(Event::End { id: e.id, interrupted: false });
                    proof {
                        assert(!has_id(oa1.subrange(0, i), eid)) by {
                            if has_id(oa1.subrange(0, i), eid) {
                                let jj = choose|jj: int|
                                    0 <= jj < oa1.subrange(0, i).len() && (#[trigger] oa1.subrange(
                                        0,
                                        i,
                                    )[jj]).cmd.id == eid;
                                assert(oa1[jj].cmd.id == eid && oa1[i].cmd.id == eid);
                                assert(false);
                            }
                        }
                        assert forall|k: int| 0 <= k < e.requirements@.len() implies h1[(
                        #[trigger] e.requirements@[k]) as int] == Some(eid) by {
                            let r = e@.cmd.reqs[k] as int;
                            assert(oh1[r] == Some(eid));
                            assert(!advance_removes(oa1.subrange(0, i), fin, eid)) by {
                                if advance_removes(oa1.subrange(0, i), fin, eid) {
                                    let jj = choose|jj: int|
                                        0 <= jj < oa1.subrange(0, i).len() && (
                                        #[trigger] oa1.subrange(0, i)[jj]).cmd.id == eid
                                            && oa1.subrange(0, i)[jj].initialized && fin.contains(
                                            eid,
                                        );
                                    assert(oa1[jj].cmd.id == eid);
                                    assert(false);
                                }
                            }
                            assert(h1[r] == oh1[r]);
                        }
                    }
                    let ghost after_remove_active = self.active@;
                    let mut kk: usize = 0;
                    while kk < e.requirements.len()
                        invariant
                            0 <= kk <= e.requirements@.len(),
                            cmd_holds(oh1, e@.cmd),
                            eid == e@.cmd.id,
                            oh1.len() == h1.len(),
                            self.active@ == after_remove_active,
                            self@.defaults == s1.defaults,
                            self.holder@.len() == h1.len(),
                            forall|rr: int|
                                0 <= rr < h1.len() ==> (#[trigger] self.holder@[rr]) == (
                                if exists|kx: int|
                                    0 <= kx < kk && e.requirements@[kx] == rr {
                                    None::<u64>
                                } else {
                                    h1[rr]
                                }),
                        decreases e.requirements@.len() - kk,
                    {
                        let rr = e.requirements[kk];
                        proof {
                            assert(e@.cmd.reqs[kk as int] == rr);
                            assert(rr < oh1.len());
                        }
                        let ghost pre_step = self.holder@;
                        self.holder[rr] = None;
                        kk += 1;
                        proof {
                            assert forall|r2: int| 0 <= r2 < h1.len() implies (
                            #[trigger] self.holder@[r2]) == (if exists|kx: int|
                                0 <= kx < kk && e.requirements@[kx] == r2 {
                                None::<u64>
                            } else {
                                h1[r2]
                            }) by {
                                if r2 == rr as int {
                                    assert(e.requirements@[kk - 1] == rr);
                                } else {
                                    assert(self.holder@[r2] == pre_step[r2]);
                                    if exists|kx: int| 0 <= kx < kk && e.requirements@[kx] == r2 {
                                        let kx = choose|kx: int|
                                            0 <= kx < kk && (#[trigger] e.requirements@[kx]) == r2;
                                        assert(kx < kk - 1);
                                    }
                                }
                            }
                        }
                    }
                    proof {
                        assert(self.holder@ =~= clear_id(h1, eid)) by {
                            assert forall|r: int| 0 <= r < h1.len() implies self.holder@[r]
                                == clear_id(h1, eid)[r] by {
                                if exists|kx: int|
                                    0 <= kx < e.requirements@.len() && e.requirements@[kx] == r {
                                    let kx = choose|kx: int|
                                        0 <= kx < e.requirements@.len() && (
                                        #[trigger] e.requirements@[kx]) == r;
                                    assert(h1[r] == Some(eid));
                                } else {
                                    if h1[r] == Some(eid) {
                                        assert(oh1[r] == Some(eid));
                                        let bi = choose|bi: int|
                                            0 <= bi < oa1.len() && (#[trigger] oa1[bi]).cmd.id
                                                == eid && oa1[bi].cmd.reqs.contains(r as usize);
                                        assert(bi == i);
                                        let kx = choose|kx: int|
                                            0 <= kx < oa1[i].cmd.reqs.len() && (
                                            #[trigger] oa1[i].cmd.reqs[kx]) == r as usize;
                                        assert(e.requirements@[kx] == r);
                                        assert(false);
                                    }
                                }
                            }
                        }
                        assert(fin.contains(eid)) by {
                            assert(finished@.contains(e.id));
                        }
                        assert(self.holder@ == advance_fold(oa1.subrange(0, i + 1), oh1, fin).1);
                        assert(kept@.map_values(|a: ActiveEntry| a@) == advance_fold(
                            oa1.subrange(0, i + 1),
                            oh1,
                            fin,
                        ).0);
                        assert(evs@ == evs1 + advance_fold(oa1.subrange(0, i + 1), oh1, fin).2);
                        i = i + 1;
                    }
                } else {
                    let ghost pre_kept = kept@;
                    kept.push(e);
                    proof {
                        assert(!fin.contains(eid)) by {
                            assert(!finished@.contains(e.id));
                        }
                        assert(kept@.map_values(|a: ActiveEntry| a@) =~= advance_fold(
                            oa1.subrange(0, i + 1),
                            oh1,
                            fin,
                        ).0) by {
                            assert forall|j: int|
                                0 <= j < kept@.len() implies (#[trigger] kept@[j])@
                                == advance_fold(oa1.subrange(0, i + 1), oh1, fin).0[j] by {
                                if j < pre_kept.len() {
                                    assert(kept@[j] == pre_kept[j]);
                                    assert(pre_kept.map_values(|a: ActiveEntry| a@)[j]
                                        == advance_fold(oa1.subrange(0, i), oh1, fin).0[j]);
                                } else {
                                    assert(kept@[j] == e);
                                }
                            }
                        }
                        assert(self.holder@ == advance_fold(oa1.subrange(0, i + 1), oh1, fin).1);
                        assert(evs@ == evs1 + advance_fold(oa1.subrange(0, i + 1), oh1, fin).2);
                        i = i + 1;
                    }
                }
            }
        }
        self.active = kept;
        let ghost s2 = self@;
        let ghost evs2 = evs@;
        proof {
            assert(i == oa1.len());
            assert(oa1.subrange(0, i) =~= oa1);
            assert(s2 =~= s1.advance_step(fin).0);
            assert(evs2 == evs1 + s1.advance_step(fin).1);
            lemma_advance_step_wf(s1, fin);
            assert(s2.wf());
            assert(s2.n() == s1.n());
        }
        // Phase three: default-command backfill for idle subsystems.
        let mut r: usize = 0;
        proof {
            assert(s2.backfill_fold(0).0 == s2);
            assert(evs@ =~= evs2 + s2.backfill_fold(0).1);
        }
        while r < nn
            invariant
                0 <= r <= nn,
                s2.wf(),
                nn == s2.n(),
                self@.wf(),
                self@.n() == s2.n(),
                self@ == s2.backfill_fold(r as nat).0,
                evs@ == evs2 + s2.backfill_fold(r as nat).1,
            decreases nn - r,
        {
            let ghost prev = self@;
            let ghost prev_evs = evs@;
            proof {
                assert(self@.defaults.len() == self@.holder.len());
                assert(self@.defaults.len() == self.defaults@.len());
                assert(self@.defaults[r as int] == match self.defaults@[r as int] {
                    Some(d) => Some(d@),
                    None => None::<CommandView>,
                });
            }
            let mut default_cmd: Option<Command> = None;
            match &self.defaults[r] {
                Some(cref) => {
                    let d = cref.clone();
                    default_cmd = Some(d);
                },
                None => {},
            }
            let holder_empty = self.holder[r].is_none();
            match default_cmd {
                Some(d) => {
                    proof {
                        assert(prev.defaults[r as int] == Some(d@));
                    }
                    if holder_empty {
                        proof {
                            assert(d@.valid(prev.n()));
                        }
                        let mut es = self.schedule(&d);
                        evs.append(&mut es);
                        proof {
                            assert(self@ == prev.schedule_step(d@).0);
                            assert(evs@ == prev_evs + prev.schedule_step(d@).1);
                        }
                    }
                },
                None => {},
            }
            proof {
                assert(self@ == s2.backfill_fold((r + 1) as nat).0);
                assert(evs@ == evs2 + s2.backfill_fold((r + 1) as nat).1);
                assert(self@.n() == prev.n());
            }
            r += 1;
        }
        let ghost s3 = self@;
        let ghost evs3 = evs@;
        proof {
            assert(s3 == s2.backfill_step().0);
            assert(evs3 == evs2 + s2.backfill_step().1);
            assert(s3.n() == nn);
        }
        // Phase four: periodic upkeep of every registered subsystem,
        // exactly once each, held or not.
        let mut r2: usize = 0;
        proof {
            assert(evs@ =~= evs3 + periodic_events(0));
        }
        while r2 < nn
            invariant
                0 <= r2 <= nn,
                self@ == s3,
                evs@ == evs3 + periodic_events(r2 as nat),
            decreases nn - r2,
        {
            let ghost prev_evs = evs@;
            evs.push(Event::Periodic { resource: r2 });
            r2 += 1;
            proof {
                assert(evs@ =~= evs3 + periodic_events(r2 as nat));
            }
        }
        proof {
            let (fs, fe) = s0.run_spec(qs, fin);
            assert(fs == s3);
            assert(evs@ =~= fe);
        }
        evs
    }

    /// Does every id in `reqs` name a registered subsystem?
    fn requirements_registered(&self, reqs: &Vec<usize>) -> (b: bool)
        ensures
            b == crate::command::reqs_valid(reqs@, self@.n()),
    {
        let n = self.holder.len();
        let mut k: usize = 0;
        while k < reqs.len()
            invariant
                0 <= k <= reqs.len(),
                n == self@.n(),
                forall|j: int| 0 <= j < k ==> (#[trigger] reqs@[j]) < n,
            decreases reqs.len() - k,
        {
            if reqs[k] >= n {
                return false;
            }
            k += 1;
        }
        true
    }
}

/// Does the vector contain the value?
fn vec_contains_usize(v: &Vec<usize>, x: usize) -> (b: bool)
    ensures
        b == v@.contains(x),
{
    let mut k: usize = 0;
    while k < v.len()
        invariant
            0 <= k <= v.len(),
            forall|j: int| 0 <= j < k ==> (#[trigger] v@[j]) != x,
        decreases v.len() - k,
    {
        if v[k] == x {
            return true;
        }
        k += 1;
    }
    false
}

/// Does the vector contain the value?
fn vec_contains_u64(v: &Vec<u64>, x: u64) -> (b: bool)
    ensures
        b == v@.contains(x),
{
    let mut k: usize = 0;
    while k < v.len()
        invariant
            0 <= k <= v.len(),
            forall|j: int| 0 <= j < k ==> (#[trigger] v@[j]) != x,
        decreases v.len() - k,
    {
        if v[k] == x {
            return true;
        }
        k += 1;
    }
    false
}

} // verus!

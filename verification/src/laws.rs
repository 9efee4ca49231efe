//! The scheduler's laws: mutual exclusion, interruption correctness,
//! non-interruptible rejection, default-command backfill, the periodic
//! invariant and idempotent scheduling, each proved from the transition
//! system that the manager's contracts are stated over.

use vstd::prelude::*;

use crate::command::{CommandView, Event, RequestView};
use crate::manager::{
    advance_fold, conflicted_id, interruption_events, lemma_advance_step_wf,
    lemma_schedule_step_wf, periodic_events, ActiveView, ManagerView,
};

verus! {

/// How many times the event `e` occurs in `evs`.
pub open spec fn count_of(evs: Seq<Event>, e: Event) -> nat
    decreases evs.len(),
{
    if evs.len() == 0 {
        0
    } else {
        count_of(evs.drop_last(), e) + if evs.last() == e {
            1nat
        } else {
            0nat
        }
    }
}

/// Occurrence counts add over concatenation.
pub proof fn lemma_count_concat(a: Seq<Event>, b: Seq<Event>, e: Event)
    ensures
        count_of(a + b, e) == count_of(a, e) + count_of(b, e),
    decreases b.len(),
{
    if b.len() == 0 {
        assert(a + b =~= a);
    } else {
        lemma_count_concat(a, b.drop_last(), e);
        assert((a + b).drop_last() =~= a + b.drop_last());
        assert((a + b).last() == b.last());
    }
}

/// An event that occurs nowhere counts zero.
pub proof fn lemma_count_absent(evs: Seq<Event>, e: Event)
    requires
        forall|j: int| 0 <= j < evs.len() ==> (#[trigger] evs[j]) != e,
    ensures
        count_of(evs, e) == 0,
    decreases evs.len(),
{
    if evs.len() == 0 {
    } else {
        let prev = evs.drop_last();
        assert(forall|j: int| 0 <= j < prev.len() ==> (#[trigger] prev[j]) == evs[j]);
        lemma_count_absent(prev, e);
        assert(evs[evs.len() - 1] != e);
    }
}

/// The upkeep events of `n` subsystems carry each subsystem exactly once.
pub proof fn lemma_count_periodic(n: nat, r: int)
    requires
        n <= usize::MAX,
        0 <= r < n,
    ensures
        count_of(periodic_events(n), Event::Periodic { resource: r as usize }) == 1,
    decreases n,
{
    let e = Event::Periodic { resource: r as usize };
    let evs = periodic_events(n);
    let prev = periodic_events((n - 1) as nat);
    assert(evs.drop_last() =~= prev);
    assert(evs.last() == Event::Periodic { resource: (n - 1) as usize });
    if r == n - 1 {
        assert(forall|j: int| 0 <= j < prev.len() ==> (#[trigger] prev[j]) != e);
        lemma_count_absent(prev, e);
        assert(count_of(evs, e) == 1);
    } else {
        lemma_count_periodic((n - 1) as nat, r);
        assert(evs.last() != e);
        assert(count_of(evs, e) == 1);
    }
}

/// Every event in `evs` is an interrupted `End`.
pub open spec fn all_interrupted_ends(evs: Seq<Event>) -> bool {
    forall|j: int|
        0 <= j < evs.len() ==> (#[trigger] evs[j]) matches Event::End { id: _, interrupted: true }
}

/// An admission's events are interrupted `End`s only.
pub proof fn lemma_interruption_events_shape(
    active: Seq<ActiveView>,
    holder: Seq<Option<u64>>,
    reqs: Seq<usize>,
)
    ensures
        all_interrupted_ends(interruption_events(active, holder, reqs)),
    decreases active.len(),
{
    if active.len() == 0 {
    } else {
        lemma_interruption_events_shape(active.drop_last(), holder, reqs);
    }
}

/// A whole request phase's events are interrupted `End`s only.
pub proof fn lemma_requests_fold_events_shape(s: ManagerView, qs: Seq<RequestView>)
    ensures
        all_interrupted_ends(s.requests_fold(qs).1),
    decreases qs.len(),
{
    if qs.len() == 0 {
    } else {
        lemma_requests_fold_events_shape(s, qs.drop_last());
        let s1 = s.requests_fold(qs.drop_last()).0;
        let e1 = s.requests_fold(qs.drop_last()).1;
        let e2 = s1.request_step(qs.last()).1;
        assert(all_interrupted_ends(e2)) by {
            match qs.last() {
                RequestView::Schedule(c) => {
                    lemma_interruption_events_shape(s1.active, s1.holder, c.reqs);
                },
                RequestView::Cancel(id) => {},
            }
        }
        assert forall|j: int| 0 <= j < (e1 + e2).len() implies ((#[trigger] (e1 + e2)[j]) matches
        Event::End { id: _, interrupted: true }) by {
            if j < e1.len() {
                assert((e1 + e2)[j] == e1[j]);
            } else {
                assert((e1 + e2)[j] == e2[j - e1.len()]);
            }
        }
    }
}

/// Neither admission nor cancellation changes the subsystem count or the
/// default table.
pub proof fn lemma_request_step_preserves(s: ManagerView, q: RequestView)
    ensures
        s.request_step(q).0.n() == s.n(),
        s.request_step(q).0.defaults == s.defaults,
{
}

/// A whole request phase changes neither the subsystem count nor the
/// default table, and preserves the invariant when its schedule requests
/// are valid.
pub proof fn lemma_requests_fold_preserves(s: ManagerView, qs: Seq<RequestView>)
    requires
        s.wf(),
        forall|q: int|
            0 <= q < qs.len() ==> ((#[trigger] qs[q]) matches RequestView::Schedule(c) ==> c.valid(
                s.n(),
            )),
    ensures
        s.requests_fold(qs).0.wf(),
        s.requests_fold(qs).0.n() == s.n(),
        s.requests_fold(qs).0.defaults == s.defaults,
    decreases qs.len(),
{
    if qs.len() == 0 {
    } else {
        let prev = qs.drop_last();
        assert(forall|q: int|
            0 <= q < prev.len() ==> ((#[trigger] prev[q]) matches RequestView::Schedule(c)
                ==> c.valid(s.n()))) by {
            assert(forall|q: int| 0 <= q < prev.len() ==> prev[q] == qs[q]);
        }
        lemma_requests_fold_preserves(s, prev);
        let s1 = s.requests_fold(prev).0;
        lemma_request_step_preserves(s1, qs.last());
        match qs.last() {
            RequestView::Schedule(c) => {
                assert(qs[qs.len() - 1] == qs.last());
                lemma_schedule_step_wf(s1, c);
            },
            RequestView::Cancel(id) => {
                crate::manager::lemma_cancel_step_wf(s1, id);
            },
        }
    }
}

/// A backfill phase preserves the invariant, the subsystem count and the
/// default table, and every event it emits is an interrupted `End`.
pub proof fn lemma_backfill_fold_preserves(s: ManagerView, upto: nat)
    requires
        s.wf(),
        upto <= s.n(),
    ensures
        s.backfill_fold(upto).0.wf(),
        s.backfill_fold(upto).0.n() == s.n(),
        s.backfill_fold(upto).0.defaults == s.defaults,
        all_interrupted_ends(s.backfill_fold(upto).1),
    decreases upto,
{
    if upto == 0 {
    } else {
        lemma_backfill_fold_preserves(s, (upto - 1) as nat);
        let s1 = s.backfill_fold((upto - 1) as nat).0;
        let e1 = s.backfill_fold((upto - 1) as nat).1;
        let r = (upto - 1) as int;
        match s1.defaults[r] {
            Some(d) => {
                if s1.holder[r] is None {
                    assert(s.defaults[r] == Some(d));
                    assert(d.valid(s1.n()));
                    lemma_schedule_step_wf(s1, d);
                    let e2 = s1.schedule_step(d).1;
                    assert(all_interrupted_ends(e2)) by {
                        lemma_interruption_events_shape(s1.active, s1.holder, d.reqs);
                    }
                    assert forall|j: int| 0 <= j < (e1 + e2).len() implies ((#[trigger] (e1
                        + e2)[j]) matches Event::End { id: _, interrupted: true }) by {
                        if j < e1.len() {
                            assert((e1 + e2)[j] == e1[j]);
                        } else {
                            assert((e1 + e2)[j] == e2[j - e1.len()]);
                        }
                    }
                }
            },
            None => {},
        }
    }
}

/// Lifecycle advancement emits no upkeep event, and an `Initialize` only
/// for a command that had not yet run its setup.
pub proof fn lemma_advance_events_shape(
    active: Seq<ActiveView>,
    holder: Seq<Option<u64>>,
    fin: Seq<u64>,
)
    ensures
        forall|j: int|
            0 <= j < advance_fold(active, holder, fin).2.len() ==> !((#[trigger] advance_fold(
                active,
                holder,
                fin,
            ).2[j]) matches Event::Periodic { .. }),
        forall|j: int|
            0 <= j < advance_fold(active, holder, fin).2.len() ==> ((#[trigger] advance_fold(
                active,
                holder,
                fin,
            ).2[j]) matches Event::Initialize { id } ==> exists|i: int|
                0 <= i < active.len() && (#[trigger] active[i]).cmd.id == id
                    && !active[i].initialized),
    decreases active.len(),
{
    if active.len() == 0 {
    } else {
        let prev = active.drop_last();
        lemma_advance_events_shape(prev, holder, fin);
        let evs = advance_fold(active, holder, fin).2;
        let rest = advance_fold(prev, holder, fin).2;
        assert forall|j: int| 0 <= j < evs.len() implies !((#[trigger] evs[j]) matches
        Event::Periodic { .. }) && ((evs[j]) matches Event::Initialize { id } ==> exists|i: int|
            0 <= i < active.len() && (#[trigger] active[i]).cmd.id == id
                && !active[i].initialized) by {
            if j < rest.len() {
                assert(evs[j] == rest[j]);
                match rest[j] {
                    Event::Initialize { id } => {
                        let i = choose|i: int|
                            0 <= i < prev.len() && (#[trigger] prev[i]).cmd.id == id
                                && !prev[i].initialized;
                        assert(active[i] == prev[i]);
                    },
                    _ => {},
                }
            } else {
                let last = active.last();
                if !last.initialized {
                    assert(evs[j] == Event::Initialize { id: last.cmd.id });
                    assert(active[active.len() - 1].cmd.id == last.cmd.id
                        && !active[active.len() - 1].initialized);
                }
            }
        }
    }
}

/// An admission's events carry the interrupted `End` of every conflicting
/// holder.
pub proof fn lemma_interruption_events_contains(
    active: Seq<ActiveView>,
    holder: Seq<Option<u64>>,
    reqs: Seq<usize>,
    i: int,
)
    requires
        0 <= i < active.len(),
        conflicted_id(holder, reqs, active[i].cmd.id),
    ensures
        exists|j: int|
            0 <= j < interruption_events(active, holder, reqs).len() && interruption_events(
                active,
                holder,
                reqs,
            )[j] == (Event::End { id: active[i].cmd.id, interrupted: true }),
    decreases active.len(),
{
    let evs = interruption_events(active, holder, reqs);
    let rest = interruption_events(active.drop_last(), holder, reqs);
    if i == active.len() - 1 {
        assert(evs[rest.len() as int] == Event::End {
            id: active[i].cmd.id,
            interrupted: true,
        });
    } else {
        assert(active.drop_last()[i] == active[i]);
        lemma_interruption_events_contains(active.drop_last(), holder, reqs, i);
        let j = choose|j: int|
            0 <= j < rest.len() && rest[j] == (Event::End {
                id: active[i].cmd.id,
                interrupted: true,
            });
        assert(evs[j] == rest[j]);
    }
}

/// Lifecycle advancement runs the one-time setup of every new entrant.
pub proof fn lemma_advance_events_init(
    active: Seq<ActiveView>,
    holder: Seq<Option<u64>>,
    fin: Seq<u64>,
    i: int,
)
    requires
        0 <= i < active.len(),
        !active[i].initialized,
    ensures
        exists|j: int|
            0 <= j < advance_fold(active, holder, fin).2.len() && advance_fold(
                active,
                holder,
                fin,
            ).2[j] == (Event::Initialize { id: active[i].cmd.id }),
    decreases active.len(),
{
    let evs = advance_fold(active, holder, fin).2;
    let rest = advance_fold(active.drop_last(), holder, fin).2;
    if i == active.len() - 1 {
        assert(evs[rest.len() as int] == Event::Initialize { id: active[i].cmd.id });
    } else {
        assert(active.drop_last()[i] == active[i]);
        lemma_advance_events_init(active.drop_last(), holder, fin, i);
        let j = choose|j: int|
            0 <= j < rest.len() && rest[j] == (Event::Initialize { id: active[i].cmd.id });
        assert(evs[j] == rest[j]);
    }
}

/// Mutual exclusion: in every well-formed scheduler state, a held
/// subsystem is held by exactly one active command, and that command's
/// requirement set contains the subsystem. Every operation's contract
/// ensures well-formedness, so this holds at every reachable state.
pub proof fn lemma_mutual_exclusion(s: ManagerView, r: int, x: u64)
    requires
        s.wf(),
        0 <= r < s.holder.len(),
        s.holder[r] == Some(x),
    ensures
        exists|i: int|
            0 <= i < s.active.len() && (#[trigger] s.active[i]).cmd.id == x
                && s.active[i].cmd.reqs.contains(r as usize),
        forall|i: int, j: int|
            0 <= i < s.active.len() && 0 <= j < s.active.len() && (#[trigger] s.active[i]).cmd.id
                == x && (#[trigger] s.active[j]).cmd.id == x ==> i == j,
{
    assert forall|i: int, j: int|
        0 <= i < s.active.len() && 0 <= j < s.active.len() && (#[trigger] s.active[i]).cmd.id == x
            && (#[trigger] s.active[j]).cmd.id == x implies i == j by {
        if i < j {
            assert(s.active[i].cmd.id != s.active[j].cmd.id);
        }
        if j < i {
            assert(s.active[j].cmd.id != s.active[i].cmd.id);
        }
    }
}

/// Interruption correctness: when admitting `c2` pre-empts the
/// interruptible command at index `i1` that holds a subsystem `c2`
/// requires, the cycle's events carry that command's interrupted `End`
/// strictly before `c2`'s `Initialize`.
pub proof fn lemma_interruption_order(s: ManagerView, c2: CommandView, i1: int, fin: Seq<u64>)
    requires
        s.wf(),
        c2.valid(s.n()),
        !s.has_active(c2.id),
        !s.blocked(c2),
        0 <= i1 < s.active.len(),
        conflicted_id(s.holder, c2.reqs, s.active[i1].cmd.id),
    ensures
        exists|j: int, k: int|
            #![trigger s.run_spec(seq![RequestView::Schedule(c2)], fin).1[j], s.run_spec(seq![RequestView::Schedule(c2)], fin).1[k]]
            0 <= j < k < s.run_spec(seq![RequestView::Schedule(c2)], fin).1.len() && s.run_spec(
                seq![RequestView::Schedule(c2)],
                fin,
            ).1[j] == (Event::End { id: s.active[i1].cmd.id, interrupted: true }) && s.run_spec(
                seq![RequestView::Schedule(c2)],
                fin,
            ).1[k] == (Event::Initialize { id: c2.id }),
{
    let qs = seq![RequestView::Schedule(c2)];
    assert(qs.drop_last() =~= Seq::<RequestView>::empty());
    assert(qs.last() == RequestView::Schedule(c2));
    assert(s.requests_fold(Seq::<RequestView>::empty()) == (s, Seq::<Event>::empty()));
    let e1 = s.schedule_step(c2).1;
    let s1 = s.schedule_step(c2).0;
    assert(s.requests_fold(qs).0 == s1);
    assert(s.requests_fold(qs).1 == Seq::<Event>::empty() + e1);
    assert(Seq::<Event>::empty() + e1 =~= e1);
    assert(e1 == interruption_events(s.active, s.holder, c2.reqs));
    lemma_interruption_events_contains(s.active, s.holder, c2.reqs, i1);
    let j0 = choose|j: int|
        0 <= j < e1.len() && e1[j] == (Event::End { id: s.active[i1].cmd.id, interrupted: true });
    // the admitted command is a new, uninitialized entrant
    let surv = crate::manager::survivors(s.active, s.holder, c2.reqs);
    assert(s1.active == surv.push(ActiveView { cmd: c2, initialized: false }));
    let ni = surv.len() as int;
    assert(s1.active[ni] == ActiveView { cmd: c2, initialized: false });
    let e2 = advance_fold(s1.active, s1.holder, fin).2;
    lemma_advance_events_init(s1.active, s1.holder, fin, ni);
    let k0 = choose|k: int| 0 <= k < e2.len() && e2[k] == (Event::Initialize { id: c2.id });
    let s2 = s1.advance_step(fin).0;
    let e3 = s2.backfill_step().1;
    let evs = s.run_spec(qs, fin).1;
    assert(evs == e1 + e2 + e3 + periodic_events(s2.backfill_step().0.n()));
    let j = j0;
    let k = e1.len() + k0;
    assert(evs[j] == e1[j0]) by {
        assert((e1 + e2)[j] == e1[j0]);
        assert(((e1 + e2) + e3)[j] == (e1 + e2)[j]);
    }
    assert(evs[k] == e2[k0]) by {
        assert((e1 + e2)[k] == e2[k0]);
        assert(((e1 + e2) + e3)[k] == (e1 + e2)[k]);
    }
    assert(0 <= j < k < evs.len());
}

/// Non-interruptible rejection: admitting `c2` against a holder that may
/// not be interrupted changes nothing — the holder stays active and
/// unchanged, no event is emitted, and `c2` is not admitted, so it can
/// never reach its one-time setup.
pub proof fn lemma_non_interruptible_rejection(s: ManagerView, c2: CommandView, i1: int)
    requires
        0 <= i1 < s.active.len(),
        conflicted_id(s.holder, c2.reqs, s.active[i1].cmd.id),
        !s.active[i1].cmd.interruptible,
    ensures
        s.schedule_step(c2) == (s, Seq::<Event>::empty()),
{
    assert(s.blocked(c2));
}

/// Default-command backfill: a subsystem whose default is registered and
/// whose holder table is empty when backfill reaches it has its default
/// admitted in the same cycle, so the default runs starting the next
/// cycle. The admission must not be blocked and the default's id must be
/// free; defaults of later subsystems must be the plain kind that requires
/// exactly its own subsystem, or one of them could claim this one first.
pub proof fn lemma_default_backfill(s2: ManagerView, r: int, d: CommandView)
    requires
        s2.wf(),
        s2.n() <= usize::MAX,
        0 <= r < s2.n(),
        s2.defaults[r] == Some(d),
        ({
            let sr = s2.backfill_fold(r as nat).0;
            &&& sr.holder[r] is None
            &&& !sr.blocked(d)
            &&& !sr.has_active(d.id)
        }),
        forall|r2: int|
            r < r2 < s2.n() ==> ((#[trigger] s2.defaults[r2]) matches Some(d2) ==> d2.reqs.len()
                == 1 && d2.reqs[0] == r2 as usize),
    ensures
        s2.backfill_step().0.holder[r] == Some(d.id),
{
    lemma_backfill_holder_from(s2, r, d, s2.n());
}

/// Helper for the backfill law: once subsystem `r`'s default has been
/// admitted at its own backfill step, later steps leave its holder alone.
proof fn lemma_backfill_holder_from(s2: ManagerView, r: int, d: CommandView, upto: nat)
    requires
        s2.wf(),
        s2.n() <= usize::MAX,
        0 <= r < upto <= s2.n(),
        s2.defaults[r] == Some(d),
        ({
            let sr = s2.backfill_fold(r as nat).0;
            &&& sr.holder[r] is None
            &&& !sr.blocked(d)
            &&& !sr.has_active(d.id)
        }),
        forall|r2: int|
            r < r2 < s2.n() ==> ((#[trigger] s2.defaults[r2]) matches Some(d2) ==> d2.reqs.len()
                == 1 && d2.reqs[0] == r2 as usize),
    ensures
        s2.backfill_fold(upto).0.holder[r] == Some(d.id),
    decreases upto,
{
    lemma_backfill_fold_preserves(s2, (upto - 1) as nat);
    let s_prev = s2.backfill_fold((upto - 1) as nat).0;
    let rr = (upto - 1) as int;
    if upto == r + 1 {
        // this is the step that admits the default itself
        assert(s_prev == s2.backfill_fold(r as nat).0);
        assert(s_prev.defaults == s2.defaults);
        assert(s_prev.defaults[r] == Some(d));
        assert(s_prev.holder[r] is None);
        let sa = s_prev.schedule_step(d).0;
        assert(sa == s_prev.admitted(d));
        assert(d.reqs.contains(r as usize)) by {
            assert(s2.defaults[r] matches Some(dd) ==> dd.reqs.contains(r as usize));
        }
        assert(sa.holder[r] == Some(d.id));
        assert(s2.backfill_fold(upto).0 == sa);
    } else {
        lemma_backfill_holder_from(s2, r, d, (upto - 1) as nat);
        assert(s_prev.holder[r] == Some(d.id));
        match s_prev.defaults[rr] {
            Some(d2) => {
                if s_prev.holder[rr] is None {
                    assert(s_prev.defaults == s2.defaults);
                    assert(d2.reqs.len() == 1 && d2.reqs[0] == rr as usize) by {
                        assert(s2.defaults[rr] matches Some(dx) ==> dx.reqs.len() == 1
                            && dx.reqs[0] == rr as usize);
                    }
                    let sa = s_prev.schedule_step(d2).0;
                    if s_prev.has_active(d2.id) || s_prev.blocked(d2) {
                        assert(sa == s_prev);
                    } else {
                        assert(sa == s_prev.admitted(d2));
                        assert(!d2.reqs.contains(r as usize)) by {
                            if d2.reqs.contains(r as usize) {
                                let kx = choose|kx: int|
                                    0 <= kx < d2.reqs.len() && (#[trigger] d2.reqs[kx]) == (
                                    r as usize);
                                assert(kx == 0);
                                assert(d2.reqs[0] == rr as usize);
                                assert(r as usize != rr as usize);
                                assert(false);
                            }
                        }
                        assert(!conflicted_id(s_prev.holder, d2.reqs, d.id)) by {
                            if conflicted_id(s_prev.holder, d2.reqs, d.id) {
                                let kx = choose|kx: int|
                                    #![trigger d2.reqs[kx]]
                                    0 <= kx < d2.reqs.len() && d2.reqs[kx] < s_prev.holder.len()
                                        && s_prev.holder[d2.reqs[kx] as int] == Some(d.id);
                                assert(kx == 0);
                                assert(s_prev.holder[rr] == Some(d.id));
                                assert(false);
                            }
                        }
                        assert(sa.holder[r] == Some(d.id));
                    }
                    assert(s2.backfill_fold(upto).0 == sa);
                } else {
                    assert(s2.backfill_fold(upto).0 == s_prev);
                }
            },
            None => {
                assert(s2.backfill_fold(upto).0 == s_prev);
            },
        }
    }
}

/// Periodic invariant: one cycle orders every registered subsystem's
/// upkeep exactly once, whether or not the subsystem is held, whatever the
/// requests and finish predicates of the cycle.
pub proof fn lemma_periodic_exactly_once(
    s: ManagerView,
    qs: Seq<RequestView>,
    fin: Seq<u64>,
    r: int,
)
    requires
        s.wf(),
        s.n() <= usize::MAX,
        0 <= r < s.n(),
        forall|q: int|
            0 <= q < qs.len() ==> ((#[trigger] qs[q]) matches RequestView::Schedule(c) ==> c.valid(
                s.n(),
            )),
    ensures
        count_of(s.run_spec(qs, fin).1, Event::Periodic { resource: r as usize }) == 1,
{
    let e = Event::Periodic { resource: r as usize };
    lemma_requests_fold_preserves(s, qs);
    let s1 = s.requests_fold(qs).0;
    let e1 = s.requests_fold(qs).1;
    lemma_advance_step_wf(s1, fin);
    let s2 = s1.advance_step(fin).0;
    let e2 = s1.advance_step(fin).1;
    assert(s2.n() == s1.n()) by {
        crate::manager::lemma_advance_fold_holder(s1.active, s1.holder, fin);
    }
    lemma_backfill_fold_preserves(s2, s2.n());
    let s3 = s2.backfill_step().0;
    let e3 = s2.backfill_step().1;
    let pe = periodic_events(s3.n());
    assert(s3.n() == s.n());
    let evs = s.run_spec(qs, fin).1;
    assert(evs == e1 + e2 + e3 + pe);
    assert(count_of(e1, e) == 0) by {
        lemma_requests_fold_events_shape(s, qs);
        assert(forall|j: int| 0 <= j < e1.len() ==> (#[trigger] e1[j]) != e);
        lemma_count_absent(e1, e);
    }
    assert(count_of(e2, e) == 0) by {
        lemma_advance_events_shape(s1.active, s1.holder, fin);
        assert(forall|j: int| 0 <= j < e2.len() ==> (#[trigger] e2[j]) != e);
        lemma_count_absent(e2, e);
    }
    assert(count_of(e3, e) == 0) by {
        assert(forall|j: int| 0 <= j < e3.len() ==> (#[trigger] e3[j]) != e);
        lemma_count_absent(e3, e);
    }
    assert(count_of(pe, e) == 1) by {
        lemma_count_periodic(s3.n(), r);
    }
    lemma_count_concat(e1, e2, e);
    lemma_count_concat(e1 + e2, e3, e);
    lemma_count_concat(e1 + e2 + e3, pe, e);
    assert(count_of(evs, e) == 1);
}

/// A command with an empty requirement set never holds a subsystem, so no
/// admission ever sees it as a conflicting holder: it is never subject to
/// interruption by requirement conflict.
pub proof fn lemma_empty_requirements_uninterruptible(s: ManagerView, i: int, reqs: Seq<usize>)
    requires
        s.wf(),
        0 <= i < s.active.len(),
        s.active[i].cmd.reqs.len() == 0,
    ensures
        !conflicted_id(s.holder, reqs, s.active[i].cmd.id),
{
    let id = s.active[i].cmd.id;
    if conflicted_id(s.holder, reqs, id) {
        let k = choose|k: int|
            #![trigger reqs[k]]
            0 <= k < reqs.len() && reqs[k] < s.holder.len() && s.holder[reqs[k] as int] == Some(
                id,
            );
        let r = reqs[k] as int;
        let j = choose|j: int|
            0 <= j < s.active.len() && (#[trigger] s.active[j]).cmd.id == id
                && s.active[j].cmd.reqs.contains(r as usize);
        assert(j == i) by {
            if j < i {
                assert(s.active[j].cmd.id != s.active[i].cmd.id);
            }
            if i < j {
                assert(s.active[i].cmd.id != s.active[j].cmd.id);
            }
        }
        assert(false);
    }
}

/// Idempotent scheduling: admitting a command that is already active is a
/// complete no-op — no state change, no event, no duplicate admission and
/// no restart of its one-time setup.
pub proof fn lemma_idempotent_schedule(s: ManagerView, c: CommandView)
    requires
        s.has_active(c.id),
    ensures
        s.schedule_step(c) == (s, Seq::<Event>::empty()),
{
}

/// Idempotent scheduling over a whole cycle: a schedule request for a
/// command that is active and past its setup never produces a second
/// `Initialize` for it in that cycle.
pub proof fn lemma_idempotent_schedule_cycle(
    s: ManagerView,
    c: CommandView,
    i1: int,
    fin: Seq<u64>,
)
    requires
        s.wf(),
        0 <= i1 < s.active.len(),
        s.active[i1].cmd.id == c.id,
        s.active[i1].initialized,
    ensures
        s.schedule_step(c) == (s, Seq::<Event>::empty()),
        forall|j: int|
            0 <= j < s.run_spec(seq![RequestView::Schedule(c)], fin).1.len() ==> (
            #[trigger] s.run_spec(seq![RequestView::Schedule(c)], fin).1[j]) != (Event::Initialize {
                id: c.id,
            }),
{
    assert(s.has_active(c.id));
    let qs = seq![RequestView::Schedule(c)];
    assert(qs.drop_last() =~= Seq::<RequestView>::empty());
    assert(qs.last() == RequestView::Schedule(c));
    assert(s.requests_fold(Seq::<RequestView>::empty()) == (s, Seq::<Event>::empty()));
    assert(s.requests_fold(qs).0 == s);
    let e1 = s.requests_fold(qs).1;
    assert(e1 =~= Seq::<Event>::empty());
    let e2 = s.advance_step(fin).1;
    let s2 = s.advance_step(fin).0;
    lemma_advance_step_wf(s, fin);
    lemma_backfill_fold_preserves(s2, s2.n());
    let e3 = s2.backfill_step().1;
    let pe = periodic_events(s2.backfill_step().0.n());
    let evs = s.run_spec(qs, fin).1;
    assert(evs == e1 + e2 + e3 + pe);
    let bad = Event::Initialize { id: c.id };
    assert(forall|j: int| 0 <= j < e2.len() ==> (#[trigger] e2[j]) != bad) by {
        lemma_advance_events_shape(s.active, s.holder, fin);
        assert forall|j: int| 0 <= j < e2.len() implies (#[trigger] e2[j]) != bad by {
            if e2[j] == bad {
                let i = choose|i: int|
                    0 <= i < s.active.len() && (#[trigger] s.active[i]).cmd.id == c.id
                        && !s.active[i].initialized;
                if i < i1 {
                    assert(s.active[i].cmd.id != s.active[i1].cmd.id);
                }
                if i1 < i {
                    assert(s.active[i1].cmd.id != s.active[i].cmd.id);
                }
                assert(false);
            }
        }
    }
    assert forall|j: int| 0 <= j < evs.len() implies (#[trigger] evs[j]) != bad by {
        assert(evs.len() == e1.len() + e2.len() + e3.len() + pe.len());
        if j < e1.len() + e2.len() {
            assert(evs[j] == (e1 + e2)[j]) by {
                assert(((e1 + e2) + e3)[j] == (e1 + e2)[j]);
            }
            assert((e1 + e2)[j] == e2[j - e1.len()]);
        } else if j < e1.len() + e2.len() + e3.len() {
            assert(evs[j] == e3[j - e1.len() - e2.len()]) by {
                assert(((e1 + e2) + e3)[j] == e3[j - (e1 + e2).len()]);
            }
            assert(e3[j - e1.len() - e2.len()] matches Event::End { id: _, interrupted: true });
        } else {
            assert(evs[j] == pe[j - e1.len() - e2.len() - e3.len()]);
        }
    }
}

} // verus!

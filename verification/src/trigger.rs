//! The trigger/binding layer: maps external boolean conditions (button
//! states, sensor thresholds) to schedule and cancel requests, issued once
//! per cycle on each condition's rising edge.

use vstd::prelude::*;

use crate::command::{request_views, Command, CommandView, Request, RequestView};

verus! {

/// What a binding does when its condition becomes true.
#[derive(Clone, Copy, Debug, PartialEq, Eq, Structural)]
pub enum BindingKind {
    /// Issue a schedule request for the bound command.
    ScheduleOnRise,
    /// Issue a cancel request for the bound command's id.
    CancelOnRise,
}

/// The mathematical content of one binding.
#[verifier::ext_equal]
pub ghost struct BindingView {
    pub cmd: CommandView,
    pub kind: BindingKind,
    /// The condition's value at the previous poll: a request is issued only
    /// on a rising edge.
    pub prev: bool,
}

struct Binding {
    command: Command,
    kind: BindingKind,
    prev: bool,
}

impl View for Binding {
    type V = BindingView;

    closed spec fn view(&self) -> BindingView {
        BindingView { cmd: self.command@, kind: self.kind, prev: self.prev }
    }
}

/// One poll of all bindings against this cycle's condition values, in
/// binding order: every binding remembers its new condition value, and each
/// newly-true condition issues its binding's request.
pub open spec fn poll_fold(bs: Seq<BindingView>, conds: Seq<bool>) -> (
    Seq<BindingView>,
    Seq<RequestView>,
)
    decreases bs.len(),
{
    if bs.len() == 0 {
        (Seq::empty(), Seq::empty())
    } else {
        let (pb, pr) = poll_fold(bs.drop_last(), conds);
        let b = bs.last();
        let cond = conds[bs.len() - 1];
        let nb = pb.push(BindingView { cmd: b.cmd, kind: b.kind, prev: cond });
        if cond && !b.prev {
            let q = match b.kind {
                BindingKind::ScheduleOnRise => RequestView::Schedule(b.cmd),
                BindingKind::CancelOnRise => RequestView::Cancel(b.cmd.id),
            };
            (nb, pr.push(q))
        } else {
            (nb, pr)
        }
    }
}

/// The trigger layer: evaluated once per cycle, it turns external
/// conditions into the cycle's schedule and cancel requests.
pub struct ConditionalScheduler {
    bindings: Vec<Binding>,
}

impl View for ConditionalScheduler {
    type V = Seq<BindingView>;

    closed spec fn view(&self) -> Seq<BindingView> {
        self.bindings@.map_values(|b: Binding| b@)
    }
}

impl ConditionalScheduler {
    /// A trigger layer with no bindings.
    pub fn new() -> (t: Self)
        ensures
            t@ == Seq::<BindingView>::empty(),
    {
        let t = ConditionalScheduler { bindings: Vec::new() };
        proof {
            assert(t@ =~= Seq::<BindingView>::empty());
        }
        t
    }

    /// Adds a binding; its condition is taken to have been false so far, so
    /// a condition that is already true at the next poll counts as newly
    /// true.
    pub fn add_binding(&mut self, command: Command, kind: BindingKind)
        ensures
            final(self)@ == old(self)@.push(
                BindingView { cmd: command@, kind, prev: false },
            ),
    {
        let ghost cv = command@;
        self.bindings.push(Binding { command, kind, prev: false });
        proof {
            assert(final(self)@ =~= old(self)@.push(BindingView { cmd: cv, kind, prev: false }));
        }
    }

    /// The number of bindings; `poll` expects one condition per binding.
    pub fn num_bindings(&self) -> (n: usize)
        ensures
            n == self@.len(),
    {
        self.bindings.len()
    }

    /// Polls every binding against this cycle's condition values, in
    /// binding order, and returns the requests of the newly-true
    /// conditions: exactly [`poll_fold`].
    pub fn poll(&mut self, conditions: &Vec<bool>) -> (reqs: Vec<Request>)
        requires
            conditions@.len() == old(self)@.len(),
        ensures
            final(self)@ == poll_fold(old(self)@, conditions@).0,
            request_views(reqs@) == poll_fold(old(self)@, conditions@).1,
    {
        let ghost bs = self@;
        let ghost conds = conditions@;
        let mut reqs: Vec<Request> = Vec::new();
        let mut out: Vec<Binding> = Vec::new();
        let ghost mut i: int = 0;
        proof {
            assert(bs.subrange(0, 0) =~= Seq::<BindingView>::empty());
            assert(out@.map_values(|b: Binding| b@) =~= poll_fold(bs.subrange(0, 0), conds).0);
            assert(request_views(reqs@) =~= poll_fold(bs.subrange(0, 0), conds).1);
            assert(self.bindings@.map_values(|b: Binding| b@) =~= bs.subrange(0, bs.len() as int));
        }
        while self.bindings.len() > 0
            invariant
                bs.len() == conds.len(),
                conds == conditions@,
                0 <= i <= bs.len(),
                i == bs.len() - self.bindings@.len(),
                self.bindings@.map_values(|b: Binding| b@) == bs.subrange(i, bs.len() as int),
                out@.map_values(|b: Binding| b@) == poll_fold(bs.subrange(0, i), conds).0,
                request_views(reqs@) == poll_fold(bs.subrange(0, i), conds).1,
            decreases self.bindings@.len(),
        {
            proof {
                assert(self.bindings@.map_values(|b: Binding| b@)[0] == bs.subrange(
                    i,
                    bs.len() as int,
                )[0]);
            }
            let ghost pre = self.bindings@;
            let b = self.bindings.remove(0);
            proof {
                assert(b@ == bs[i]);
                assert(self.bindings@.map_values(|bb: Binding| bb@) =~= bs.subrange(
                    i + 1,
                    bs.len() as int,
                )) by {
                    assert forall|j: int|
                        0 <= j < self.bindings@.len() implies (#[trigger] self.bindings@[j])@
                        == bs.subrange(i + 1, bs.len() as int)[j] by {
                        assert(self.bindings@[j] == pre[j + 1]);
                        assert(pre.map_values(|bb: Binding| bb@)[j + 1] == bs.subrange(
                            i,
                            bs.len() as int,
                        )[j + 1]);
                    }
                }
                assert(bs.subrange(0, i + 1).drop_last() =~= bs.subrange(0, i));
                assert(bs.subrange(0, i + 1).last() == bs[i]);
                assert(bs.subrange(0, i + 1).len() - 1 == i);
            }
            let idx = out.len();
            proof {
                assert(i == out@.len()) by {
                    assert(poll_fold(bs.subrange(0, i), conds).0.len() == bs.subrange(
                        0,
                        i,
                    ).len()) by {
                        lemma_poll_fold_len(bs.subrange(0, i), conds);
                    }
                }
            }
            let cond = conditions[idx];
            let fire = cond && !b.prev;
            let ghost pre_out = out@;
            let nb = Binding { command: b.command, kind: b.kind, prev: cond };
            proof {
                assert(nb@ == BindingView { cmd: bs[i].cmd, kind: bs[i].kind, prev: conds[i] });
            }
            if fire {
                let q = match nb.kind {
                    BindingKind::ScheduleOnRise => Request::Schedule(nb.command.clone()),
                    BindingKind::CancelOnRise => Request::Cancel(nb.command.id()),
                };
                let ghost pre_reqs = reqs@;
                proof {
                    assert(q@ == match bs[i].kind {
                        BindingKind::ScheduleOnRise => RequestView::Schedule(bs[i].cmd),
                        BindingKind::CancelOnRise => RequestView::Cancel(bs[i].cmd.id),
                    });
                }
                reqs.push(q);
                proof {
                    assert(request_views(reqs@) =~= poll_fold(bs.subrange(0, i + 1), conds).1) by {
                        assert forall|j: int|
                            0 <= j < reqs@.len() implies (#[trigger] reqs@[j])@ == poll_fold(
                            bs.subrange(0, i + 1),
                            conds,
                        ).1[j] by {
                            if j < pre_reqs.len() {
                                assert(reqs@[j] == pre_reqs[j]);
                                assert(request_views(pre_reqs)[j] == poll_fold(
                                    bs.subrange(0, i),
                                    conds,
                                ).1[j]);
                            }
                        }
                    }
                }
            } else {
                proof {
                    assert(request_views(reqs@) == poll_fold(bs.subrange(0, i + 1), conds).1);
                }
            }
            out.push(nb);
            proof {
                assert(out@.map_values(|bb: Binding| bb@) =~= poll_fold(
                    bs.subrange(0, i + 1),
                    conds,
                ).0) by {
                    assert forall|j: int|
                        0 <= j < out@.len() implies (#[trigger] out@[j])@ == poll_fold(
                        bs.subrange(0, i + 1),
                        conds,
                    ).0[j] by {
                        if j < pre_out.len() {
                            assert(out@[j] == pre_out[j]);
                            assert(pre_out.map_values(|bb: Binding| bb@)[j] == poll_fold(
                                bs.subrange(0, i),
                                conds,
                            ).0[j]);
                        } else {
                            assert(out@[j] == nb);
                        }
                    }
                }
                i = i + 1;
            }
        }
        self.bindings = out;
        proof {
            assert(i == bs.len());
            assert(bs.subrange(0, i) =~= bs);
        }
        reqs
    }
}

/// A poll keeps one binding per binding.
pub proof fn lemma_poll_fold_len(bs: Seq<BindingView>, conds: Seq<bool>)
    ensures
        poll_fold(bs, conds).0.len() == bs.len(),
    decreases bs.len(),
{
    if bs.len() == 0 {
    } else {
        lemma_poll_fold_len(bs.drop_last(), conds);
    }
}

} // verus!

//! Composite commands: sequences, parallel groups and races over child
//! commands.
//!
//! A composite is itself a command: its requirement set is the union of
//! its children's ([`union_requirements`]), so the scheduler resolves its
//! conflicts as a unit, and its lifecycle delegates to the children
//! according to the composition kind. [`CompositeState`] is the verified
//! delegation machine: it tracks which children run and which have
//! finished, advances one step per cycle on the children's finish results,
//! and says when the composite as a whole is finished.

use vstd::prelude::*;

use crate::command::Command;

verus! {

/// How a composite schedules its children.
#[derive(Clone, Copy, Debug, PartialEq, Eq, Structural)]
pub enum Composition {
    /// Children run one at a time in declared order; a child's completion
    /// starts the next; the composite finishes with the last child.
    Sequence,
    /// All children run concurrently within the same cycle; the composite
    /// finishes when all children have finished.
    Parallel,
    /// All children run concurrently; the first child to finish wins and
    /// the remaining children are interrupted.
    Race,
}

/// The mathematical content of a [`CompositeState`].
#[verifier::ext_equal]
pub ghost struct CompositeView {
    pub kind: Composition,
    /// Per child, whether it is currently running.
    pub running: Seq<bool>,
    /// Per child, whether it has finished on its own.
    pub finished: Seq<bool>,
}

impl CompositeView {
    /// Both tables cover the same children.
    pub open spec fn wf(self) -> bool {
        self.running.len() == self.finished.len()
    }

    /// Whether the composite as a whole is finished: a sequence or
    /// parallel group when every child has finished, a race as soon as any
    /// child has.
    pub open spec fn done(self) -> bool {
        match self.kind {
            Composition::Sequence => forall|i: int|
                0 <= i < self.finished.len() ==> #[trigger] self.finished[i],
            Composition::Parallel => forall|i: int|
                0 <= i < self.finished.len() ==> #[trigger] self.finished[i],
            Composition::Race => exists|i: int|
                0 <= i < self.finished.len() && #[trigger] self.finished[i],
        }
    }
}

/// Does some running child finish this step?
pub open spec fn race_fires(running: Seq<bool>, cf: Seq<bool>) -> bool {
    exists|i: int| 0 <= i < running.len() && (#[trigger] running[i]) && cf[i]
}

/// The indices at which `s` is true, in ascending order.
pub open spec fn true_indices(s: Seq<bool>) -> Seq<usize>
    decreases s.len(),
{
    if s.len() == 0 {
        Seq::empty()
    } else {
        let rest = true_indices(s.drop_last());
        if s.last() {
            rest.push((s.len() - 1) as usize)
        } else {
            rest
        }
    }
}

/// The verified delegation machine of one composite command.
pub struct CompositeState {
    kind: Composition,
    running: Vec<bool>,
    finished: Vec<bool>,
}

impl View for CompositeState {
    type V = CompositeView;

    closed spec fn view(&self) -> CompositeView {
        CompositeView { kind: self.kind, running: self.running@, finished: self.finished@ }
    }
}

impl CompositeState {
    /// A fresh composite over `n` children: a sequence starts its first
    /// child only, a parallel group or race starts all of them; nothing
    /// has finished.
    pub fn new(kind: Composition, n: usize) -> (c: Self)
        ensures
            c@.wf(),
            c@.kind == kind,
            c@.running.len() == n,
            c@.finished.len() == n,
            forall|i: int| 0 <= i < n ==> !(#[trigger] c@.finished[i]),
            forall|i: int|
                0 <= i < n ==> (#[trigger] c@.running[i]) == match kind {
                    Composition::Sequence => i == 0,
                    Composition::Parallel => true,
                    Composition::Race => true,
                },
    {
        let mut running: Vec<bool> = Vec::new();
        let mut finished: Vec<bool> = Vec::new();
        let mut i: usize = 0;
        while i < n
            invariant
                0 <= i <= n,
                running@.len() == i,
                finished@.len() == i,
                forall|j: int| 0 <= j < i ==> !(#[trigger] finished@[j]),
                forall|j: int|
                    0 <= j < i ==> (#[trigger] running@[j]) == match kind {
                        Composition::Sequence => j == 0,
                        Composition::Parallel => true,
                        Composition::Race => true,
                    },
            decreases n - i,
        {
            let starts = match kind {
                Composition::Sequence => i == 0,
                Composition::Parallel => true,
                Composition::Race => true,
            };
            running.push(starts);
            finished.push(false);
            i += 1;
        }
        CompositeState { kind, running, finished }
    }

    /// The number of children.
    pub fn num_children(&self) -> (n: usize)
        requires
            self@.wf(),
        ensures
            n == self@.running.len(),
    {
        self.running.len()
    }

    /// The currently running children, in declared order: the ones whose
    /// lifecycle calls the composite delegates this cycle.
    pub fn running_children(&self) -> (r: Vec<usize>)
        ensures
            r@ == true_indices(self@.running),
    {
        let mut r: Vec<usize> = Vec::new();
        let mut i: usize = 0;
        proof {
            assert(self@.running.subrange(0, 0) =~= Seq::<bool>::empty());
            assert(r@ =~= true_indices(self@.running.subrange(0, 0)));
        }
        while i < self.running.len()
            invariant
                0 <= i <= self.running@.len(),
                self@.running == self.running@,
                r@ == true_indices(self@.running.subrange(0, i as int)),
            decreases self.running@.len() - i,
        {
            proof {
                assert(self@.running.subrange(0, i + 1).drop_last() =~= self@.running.subrange(
                    0,
                    i as int,
                ));
                assert(self@.running.subrange(0, i + 1).last() == self@.running[i as int]);
            }
            if self.running[i] {
                r.push(i);
            }
            i += 1;
        }
        proof {
            assert(self@.running.subrange(0, self@.running.len() as int) =~= self@.running);
        }
        r
    }

    /// Is the composite as a whole finished?
    pub fn is_finished(&self) -> (b: bool)
        ensures
            b == self@.done(),
    {
        match self.kind {
            Composition::Race => {
                let mut i: usize = 0;
                while i < self.finished.len()
                    invariant
                        0 <= i <= self.finished@.len(),
                        self@.finished == self.finished@,
                        self@.kind == Composition::Race,
                        forall|j: int| 0 <= j < i ==> !(#[trigger] self@.finished[j]),
                    decreases self.finished@.len() - i,
                {
                    if self.finished[i] {
                        return true;
                    }
                    i += 1;
                }
                false
            },
            _ => {
                let mut i: usize = 0;
                while i < self.finished.len()
                    invariant
                        0 <= i <= self.finished@.len(),
                        self@.finished == self.finished@,
                        self@.kind == self.kind,
                        self.kind != Composition::Race,
                        forall|j: int| 0 <= j < i ==> #[trigger] self@.finished[j],
                    decreases self.finished@.len() - i,
                {
                    if !self.finished[i] {
                        return false;
                    }
                    i += 1;
                }
                true
            },
        }
    }

    /// One delegation step, given each child's finish result for this
    /// cycle (`cf[i]` is child `i`'s finish predicate, meaningful where
    /// the child ran). A sequence moves past its finished child to the
    /// next; a parallel group retires each finished child; a race, once
    /// any running child finishes, stops everything and returns the
    /// children that must now end interrupted, in declared order.
    pub fn step(&mut self, cf: &Vec<bool>) -> (interrupted: Vec<usize>)
        requires
            old(self)@.wf(),
            cf@.len() == old(self)@.running.len(),
        ensures
            final(self)@.wf(),
            final(self)@.kind == old(self)@.kind,
            final(self)@.running.len() == old(self)@.running.len(),
            final(self)@.finished.len() == old(self)@.finished.len(),
            old(self)@.kind == Composition::Sequence ==> {
                &&& interrupted@ == Seq::<usize>::empty()
                &&& forall|i: int|
                    0 <= i < old(self)@.running.len() ==> (#[trigger] final(self)@.finished[i]) == (
                    old(self)@.finished[i] || (old(self)@.running[i] && cf@[i]))
                &&& forall|i: int|
                    0 <= i < old(self)@.running.len() ==> (#[trigger] final(self)@.running[i]) == ((
                    old(self)@.running[i] && !cf@[i]) || (i >= 1 && old(self)@.running[i - 1]
                        && cf@[i - 1]))
            },
            old(self)@.kind == Composition::Parallel ==> {
                &&& interrupted@ == Seq::<usize>::empty()
                &&& forall|i: int|
                    0 <= i < old(self)@.running.len() ==> (#[trigger] final(self)@.finished[i]) == (
                    old(self)@.finished[i] || (old(self)@.running[i] && cf@[i]))
                &&& forall|i: int|
                    0 <= i < old(self)@.running.len() ==> (#[trigger] final(self)@.running[i]) == (
                    old(self)@.running[i] && !cf@[i])
            },
            old(self)@.kind == Composition::Race ==> (if race_fires(old(self)@.running, cf@) {
                &&& interrupted@ == true_indices(
                    Seq::new(
                        old(self)@.running.len(),
                        |i: int| old(self)@.running[i] && !cf@[i],
                    ),
                )
                &&& forall|i: int|
                    0 <= i < old(self)@.running.len() ==> (#[trigger] final(self)@.finished[i]) == (
                    old(self)@.finished[i] || (old(self)@.running[i] && cf@[i]))
                &&& forall|i: int|
                    0 <= i < old(self)@.running.len() ==> !(#[trigger] final(self)@.running[i])
            } else {
                &&& interrupted@ == Seq::<usize>::empty()
                &&& final(self)@ == old(self)@
            }),
    {
        let ghost orun = self@.running;
        let ghost ofin = self@.finished;
        let n = self.running.len();
        let mut interrupted: Vec<usize> = Vec::new();
        match self.kind {
            Composition::Sequence => {
                let mut nrun: Vec<bool> = Vec::new();
                let mut nfin: Vec<bool> = Vec::new();
                let mut i: usize = 0;
                while i < n
                    invariant
                        0 <= i <= n,
                        n == orun.len(),
                        n == ofin.len(),
                        cf@.len() == n,
                        self@.running == orun,
                        self@.finished == ofin,
                        nrun@.len() == i,
                        nfin@.len() == i,
                        forall|j: int|
                            0 <= j < i ==> (#[trigger] nfin@[j]) == (ofin[j] || (orun[j]
                                && cf@[j])),
                        forall|j: int|
                            0 <= j < i ==> (#[trigger] nrun@[j]) == ((orun[j] && !cf@[j]) || (j >= 1
                                && orun[j - 1] && cf@[j - 1])),
                    decreases n - i,
                {
                    let fin_now = self.running[i] && cf[i];
                    let advanced_into = i >= 1 && self.running[i - 1] && cf[i - 1];
                    nfin.push(self.finished[i] || fin_now);
                    nrun.push((self.running[i] && !cf[i]) || advanced_into);
                    i += 1;
                }
                self.running = nrun;
                self.finished = nfin;
            },
            Composition::Parallel => {
                let mut nrun: Vec<bool> = Vec::new();
                let mut nfin: Vec<bool> = Vec::new();
                let mut i: usize = 0;
                while i < n
                    invariant
                        0 <= i <= n,
                        n == orun.len(),
                        n == ofin.len(),
                        cf@.len() == n,
                        self@.running == orun,
                        self@.finished == ofin,
                        nrun@.len() == i,
                        nfin@.len() == i,
                        forall|j: int|
                            0 <= j < i ==> (#[trigger] nfin@[j]) == (ofin[j] || (orun[j]
                                && cf@[j])),
                        forall|j: int|
                            0 <= j < i ==> (#[trigger] nrun@[j]) == (orun[j] && !cf@[j]),
                    decreases n - i,
                {
                    nfin.push(self.finished[i] || (self.running[i] && cf[i]));
                    nrun.push(self.running[i] && !cf[i]);
                    i += 1;
                }
                self.running = nrun;
                self.finished = nfin;
            },
            Composition::Race => {
                let mut fired = false;
                let mut i: usize = 0;
                while i < n
                    invariant
                        0 <= i <= n,
                        n == orun.len(),
                        cf@.len() == n,
                        self@.running == orun,
                        self@.finished == ofin,
                        fired == exists|j: int|
                            0 <= j < i && (#[trigger] orun[j]) && cf@[j],
                    decreases n - i,
                {
                    if self.running[i] && cf[i] {
                        fired = true;
                    }
                    i += 1;
                }
                proof {
                    assert(fired == race_fires(orun, cf@));
                }
                if fired {
                    let ghost leftovers = Seq::new(orun.len(), |i: int| orun[i] && !cf@[i]);
                    let mut nrun: Vec<bool> = Vec::new();
                    let mut nfin: Vec<bool> = Vec::new();
                    let mut j: usize = 0;
                    proof {
                        assert(leftovers.subrange(0, 0) =~= Seq::<bool>::empty());
                        assert(interrupted@ =~= true_indices(leftovers.subrange(0, 0)));
                    }
                    while j < n
                        invariant
                            0 <= j <= n,
                            n == orun.len(),
                            n == ofin.len(),
                            cf@.len() == n,
                            self@.running == orun,
                            self@.finished == ofin,
                            leftovers == Seq::new(orun.len(), |i: int| orun[i] && !cf@[i]),
                            nrun@.len() == j,
                            nfin@.len() == j,
                            forall|k: int| 0 <= k < j ==> !(#[trigger] nrun@[k]),
                            forall|k: int|
                                0 <= k < j ==> (#[trigger] nfin@[k]) == (ofin[k] || (orun[k]
                                    && cf@[k])),
                            interrupted@ == true_indices(leftovers.subrange(0, j as int)),
                        decreases n - j,
                    {
                        proof {
                            assert(leftovers.subrange(0, j + 1).drop_last() =~= leftovers.subrange(
                                0,
                                j as int,
                            ));
                            assert(leftovers.subrange(0, j + 1).last() == leftovers[j as int]);
                        }
                        nrun.push(false);
                        nfin.push(self.finished[j] || (self.running[j] && cf[j]));
                        if self.running[j] && !cf[j] {
                            interrupted.push(j);
                        }
                        j += 1;
                    }
                    proof {
                        assert(leftovers.subrange(0, n as int) =~= leftovers);
                    }
                    self.running = nrun;
                    self.finished = nfin;
                } else {
                    proof {
                        assert(interrupted@ =~= Seq::<usize>::empty());
                    }
                }
            },
        }
        interrupted
    }
}

/// Does some child among the first `upto` declare the subsystem `x`?
pub open spec fn required_by_any(children: Seq<Command>, upto: int, x: usize) -> bool {
    exists|ci: int| 0 <= ci < upto && (#[trigger] children[ci])@.reqs.contains(x)
}

/// The requirement set of a composite: the union of its children's
/// requirement sets, without duplicates. Admitting the composite therefore
/// resolves every child's conflicts atomically, in one admission step.
pub fn union_requirements(children: &Vec<Command>) -> (out: Vec<usize>)
    ensures
        forall|x: usize|
            #[trigger] out@.contains(x) == required_by_any(children@, children@.len() as int, x),
        forall|i: int, j: int| 0 <= i < j < out@.len() ==> out@[i] != out@[j],
{
    let mut out: Vec<usize> = Vec::new();
    let mut ci: usize = 0;
    while ci < children.len()
        invariant
            0 <= ci <= children@.len(),
            forall|x: usize|
                #[trigger] out@.contains(x) == required_by_any(children@, ci as int, x),
            forall|i: int, j: int| 0 <= i < j < out@.len() ==> out@[i] != out@[j],
        decreases children@.len() - ci,
    {
        let reqs = children[ci].requirements();
        let mut k: usize = 0;
        while k < reqs.len()
            invariant
                0 <= k <= reqs@.len(),
                0 <= ci < children@.len(),
                reqs@ == children@[ci as int]@.reqs,
                forall|x: usize|
                    #[trigger] out@.contains(x) == (required_by_any(children@, ci as int, x)
                        || exists|kk: int| 0 <= kk < k && (#[trigger] reqs@[kk]) == x),
                forall|i: int, j: int| 0 <= i < j < out@.len() ==> out@[i] != out@[j],
            decreases reqs@.len() - k,
        {
            let x = reqs[k];
            let ghost pre_out = out@;
            if !contains_value(&out, x) {
                out.push(x);
            }
            k += 1;
            proof {
                assert forall|y: usize| #[trigger]
                    out@.contains(y) == (required_by_any(children@, ci as int, y) || exists|
                        kk: int,
                    | 0 <= kk < k && (#[trigger] reqs@[kk]) == y) by {
                    if out@ == pre_out {
                        if out@.contains(y) {
                        } else {
                            if exists|kk: int| 0 <= kk < k && (#[trigger] reqs@[kk]) == y {
                                let kk = choose|kk: int|
                                    0 <= kk < k && (#[trigger] reqs@[kk]) == y;
                                if kk == k - 1 {
                                    assert(y == x);
                                    assert(pre_out.contains(x));
                                }
                            }
                        }
                    } else {
                        assert(out@ == pre_out.push(x));
                        if out@.contains(y) {
                            let w = choose|w: int| 0 <= w < out@.len() && out@[w] == y;
                            if w < pre_out.len() {
                                assert(pre_out[w] == y);
                                assert(pre_out.contains(y));
                            } else {
                                assert(y == x);
                                assert(reqs@[k - 1] == x);
                            }
                        } else {
                        }
                        if required_by_any(children@, ci as int, y) || exists|kk: int|
                            0 <= kk < k && (#[trigger] reqs@[kk]) == y {
                            if required_by_any(children@, ci as int, y) {
                                assert(pre_out.contains(y));
                                let w = choose|w: int|
                                    0 <= w < pre_out.len() && (#[trigger] pre_out[w]) == y;
                                assert(out@[w] == y);
                                assert(out@.contains(y));
                            } else {
                                let kk = choose|kk: int|
                                    0 <= kk < k && (#[trigger] reqs@[kk]) == y;
                                if kk < k - 1 {
                                    assert(pre_out.contains(y));
                                    let w = choose|w: int|
                                        0 <= w < pre_out.len() && (#[trigger] pre_out[w]) == y;
                                    assert(out@[w] == y);
                                } else {
                                    assert(y == x);
                                    assert(out@[pre_out.len() as int] == x);
                                    assert(out@.contains(x));
                                }
                            }
                        }
                    }
                }
                // a freshly pushed value was absent before, so no duplicate
                assert forall|i: int, j: int| 0 <= i < j < out@.len() implies out@[i]
                    != out@[j] by {
                    if out@ != pre_out && j == out@.len() - 1 {
                        assert(out@[j] == x);
                        assert(!pre_out.contains(x));
                        assert(out@[i] == pre_out[i]);
                        if out@[i] == x {
                            assert(pre_out.contains(x));
                        }
                    }
                }
            }
        }
        ci += 1;
        proof {
            assert forall|x: usize| #[trigger]
                out@.contains(x) == required_by_any(children@, ci as int, x) by {
                if out@.contains(x) {
                    if required_by_any(children@, ci as int - 1, x) {
                    } else {
                        let kk = choose|kk: int|
                            0 <= kk < children@[ci - 1]@.reqs.len() && (#[trigger] children@[ci
                                - 1]@.reqs[kk]) == x;
                        assert(children@[ci - 1]@.reqs.contains(x));
                        assert(required_by_any(children@, ci as int, x));
                    }
                }
                if required_by_any(children@, ci as int, x) {
                    let cw = choose|cw: int|
                        0 <= cw < ci && (#[trigger] children@[cw])@.reqs.contains(x);
                    if cw < ci - 1 {
                        assert(required_by_any(children@, ci as int - 1, x));
                    } else {
                        let kk = choose|kk: int|
                            0 <= kk < children@[cw]@.reqs.len() && (#[trigger] children@[cw]@.reqs[kk])
                                == x;
                        assert(exists|kx: int|
                            0 <= kx < children@[ci - 1]@.reqs.len() && (#[trigger] children@[ci
                                - 1]@.reqs[kx]) == x);
                    }
                }
            }
        }
    }
    out
}

/// Does the vector contain the value?
fn contains_value(v: &Vec<usize>, x: usize) -> (b: bool)
    ensures
        b == v@.contains(x),
{
    let mut k: usize = 0;
    while k < v.len()
        invariant
            0 <= k <= v@.len(),
            forall|j: int| 0 <= j < k ==> (#[trigger] v@[j]) != x,
        decreases v@.len() - k,
    {
        if v[k] == x {
            return true;
        }
        k += 1;
    }
    false
}

} // verus!

use vstd::prelude::*;
use crate::appender::capability_after_commit;
use crate::frontier::{join_of, rank, step_forward, step_past, Description, Frontier};

verus! {

/// Where a minter stands in its life.
#[derive(PartialEq, Eq, Structural, Clone, Copy, Debug)]
pub enum MinterPhase {
    /// The leader has not yet seen the shard's upper at or beyond `as_of`.
    Bootstrapping,
    /// Inputs are consumed and descriptions minted.
    Steady,
    /// Both inputs are exhausted.
    Terminated,
}

/// An empty append that moves the shard's upper from `expected_upper` to
/// `new_upper`.
#[derive(PartialEq, Eq, Structural, Clone, Copy, Debug)]
pub struct EmptyAppend {
    pub expected_upper: Frontier,
    pub new_upper: Frontier,
}

/// The capability a minter keeps after minting a description at `lower`.
pub open spec fn capability_after(lower: Frontier) -> Frontier {
    match lower {
        Frontier::At(t) => step_past(t),
        Frontier::Empty => Frontier::Empty,
    }
}

/// The operator that mints batch descriptions. Only the leader mints; every
/// instance consumes its inputs.
#[derive(Clone, Copy)]
pub struct Minter {
    pub leader: bool,
    /// The write lower bound: no description starts below it.
    pub as_of: Frontier,
    pub phase: MinterPhase,
    pub desired_frontier: Frontier,
    /// The latest observed upper of the shard.
    pub persist_frontier: Frontier,
    /// The persist frontier when the latest description was minted.
    pub emitted_persist_frontier: Option<Frontier>,
    /// The output capability held, or the empty frontier when none is held.
    pub capability: Frontier,
    /// The sink's shared write frontier, as this instance publishes it.
    pub shared_frontier: Frontier,
    /// The descriptions minted so far, in order.
    pub minted: Ghost<Seq<Description>>,
}

impl Minter {
    pub open spec fn wf(&self) -> bool {
        &&& forall|i: int| 0 <= i < self.minted@.len() ==> {
            &&& (#[trigger] self.minted@[i]).wf()
            &&& rank(self.as_of) <= rank(self.minted@[i].lower)
        }
        &&& forall|i: int, j: int| 0 <= i < j < self.minted@.len()
            ==> rank(self.minted@[i].lower) < rank(self.minted@[j].lower)
        &&& self.emitted_persist_frontier.is_none() <==> self.minted@.len() == 0
        &&& self.emitted_persist_frontier.is_some()
            ==> self.emitted_persist_frontier.unwrap() == self.minted@.last().lower
        &&& !self.leader ==> {
            &&& self.phase != MinterPhase::Bootstrapping
            &&& self.minted@.len() == 0
            &&& self.capability == Frontier::Empty
            &&& self.shared_frontier == Frontier::Empty
        }
        &&& self.leader && self.phase == MinterPhase::Steady ==> {
            &&& rank(self.as_of) <= rank(self.persist_frontier)
            &&& self.emitted_persist_frontier.is_some()
                ==> rank(self.emitted_persist_frontier.unwrap()) <= rank(self.persist_frontier)
        }
        &&& self.leader && self.phase != MinterPhase::Terminated ==> {
            &&& self.minted@.len() == 0 ==> self.capability == Frontier::At(0)
            &&& self.minted@.len() > 0 ==> self.capability == capability_after(self.minted@.last().lower)
        }
        &&& self.phase == MinterPhase::Bootstrapping ==> self.minted@.len() == 0
        &&& self.phase == MinterPhase::Terminated ==> self.capability == Frontier::Empty
    }

    /// A new minter. The leader starts bootstrapping, holding the minimum
    /// capability and publishing the minimum frontier; any other instance
    /// holds nothing and publishes the empty frontier.
    pub fn new(leader: bool, as_of: Frontier) -> (r: Minter)
        ensures
            r.wf(),
            r.leader == leader,
            r.as_of == as_of,
            r.phase == if leader { MinterPhase::Bootstrapping } else { MinterPhase::Steady },
            r.desired_frontier == Frontier::At(0),
            r.persist_frontier == Frontier::At(0),
            r.emitted_persist_frontier.is_none(),
            r.capability == if leader { Frontier::At(0) } else { Frontier::Empty },
            r.shared_frontier == if leader { Frontier::At(0) } else { Frontier::Empty },
            r.minted@.len() == 0,
    {
        Minter {
            leader,
            as_of,
            phase: if leader { MinterPhase::Bootstrapping } else { MinterPhase::Steady },
            desired_frontier: Frontier::At(0),
            persist_frontier: Frontier::At(0),
            emitted_persist_frontier: None,
            capability: if leader { Frontier::At(0) } else { Frontier::Empty },
            shared_frontier: if leader { Frontier::At(0) } else { Frontier::Empty },
            minted: Ghost(Seq::empty()),
        }
    }

    /// The state after the leader observes the shard's upper `upper` while
    /// bootstrapping, and the empty append it asks for, if any.
    pub open spec fn observed(self, upper: Frontier) -> (Minter, Option<EmptyAppend>) {
        if rank(upper) < rank(self.as_of) {
            (self, Some(EmptyAppend { expected_upper: upper, new_upper: self.as_of }))
        } else {
            (Minter { phase: MinterPhase::Steady, persist_frontier: upper, ..self }, None)
        }
    }

    /// The leader has read the shard's upper. Below `as_of`, it asks for an
    /// empty append up to `as_of`; otherwise bootstrapping is over and the
    /// upper is the persist frontier.
    pub fn on_shard_upper(&mut self, upper: Frontier) -> (r: Option<EmptyAppend>)
        requires
            old(self).wf(),
            old(self).leader,
            old(self).phase == MinterPhase::Bootstrapping,
        ensures
            final(self).wf(),
            (*final(self), r) == old(self).observed(upper),
            rank(old(self).as_of) <= rank(upper) ==> r.is_none(),
    {
        if upper.less_than(&self.as_of) {
            Some(EmptyAppend { expected_upper: upper, new_upper: self.as_of })
        } else {
            self.phase = MinterPhase::Steady;
            self.persist_frontier = upper;
            None
        }
    }

    /// The outcome of the bootstrap append. Success moved the shard to
    /// `as_of`; a conflict reports the shard's actual upper, which is then
    /// taken as observed.
    pub fn on_bootstrap_append(&mut self, result: Result<(), Frontier>) -> (r: Option<EmptyAppend>)
        requires
            old(self).wf(),
            old(self).leader,
            old(self).phase == MinterPhase::Bootstrapping,
        ensures
            final(self).wf(),
            result.is_ok() ==> (*final(self), r) == old(self).observed(old(self).as_of) && r.is_none(),
            result.is_err() ==> (*final(self), r) == old(self).observed(result->Err_0),
    {
        match result {
            Ok(()) => {
                let a = self.as_of;
                self.on_shard_upper(a)
            }
            Err(actual) => self.on_shard_upper(actual),
        }
    }

    /// The state after the input frontiers become `desired` and `persist`, and
    /// the description minted, if any. The leader first raises the shared
    /// frontier to the persist frontier, then mints `(persist, desired)` when
    /// the persist frontier lies below the desired frontier and has moved
    /// since the last description.
    pub open spec fn stepped(self, desired: Frontier, persist: Frontier) -> (Minter, Option<Description>) {
        let shared = if self.leader && rank(self.shared_frontier) < rank(persist) {
            persist
        } else {
            self.shared_frontier
        };
        let base = Minter {
            desired_frontier: desired,
            persist_frontier: persist,
            shared_frontier: shared,
            ..self
        };
        let mint = self.leader && rank(persist) < rank(desired) && (self.emitted_persist_frontier.is_none()
            || rank(self.emitted_persist_frontier.unwrap()) < rank(persist));
        if mint {
            let d = Description { lower: persist, upper: desired };
            (
                Minter {
                    emitted_persist_frontier: Some(persist),
                    capability: capability_after(persist),
                    minted: Ghost(self.minted@.push(d)),
                    ..base
                },
                Some(d),
            )
        } else {
            (base, None)
        }
    }

    /// The desired input's frontier advanced to `f`.
    pub fn on_desired_progress(&mut self, f: Frontier) -> (r: Option<Description>)
        requires
            old(self).wf(),
            old(self).phase == MinterPhase::Steady,
        ensures
            final(self).wf(),
            (*final(self), r) == old(self).stepped(f, old(self).persist_frontier),
            rank(old(self).shared_frontier) <= rank(final(self).shared_frontier),
    {
        let p = self.persist_frontier;
        self.step(f, p)
    }

    /// The feedback input's frontier, the shard's upper as the appender last
    /// saw it, advanced to `f`. The persist frontier never moves back.
    pub fn on_feedback_progress(&mut self, f: Frontier) -> (r: Option<Description>)
        requires
            old(self).wf(),
            old(self).phase == MinterPhase::Steady,
        ensures
            final(self).wf(),
            (*final(self), r) == old(self).stepped(old(self).desired_frontier, join_of(old(self).persist_frontier, f)),
            rank(old(self).shared_frontier) <= rank(final(self).shared_frontier),
    {
        let d = self.desired_frontier;
        let p = self.persist_frontier.join(&f);
        self.step(d, p)
    }

    /// Both inputs are exhausted: the minter stops and drops its capability.
    pub fn on_inputs_exhausted(&mut self)
        requires
            old(self).wf(),
            old(self).phase == MinterPhase::Steady,
        ensures
            final(self).wf(),
            *final(self) == (Minter { phase: MinterPhase::Terminated, capability: Frontier::Empty, ..*old(self) }),
    {
        self.phase = MinterPhase::Terminated;
        self.capability = Frontier::Empty;
    }

    fn step(&mut self, desired: Frontier, persist: Frontier) -> (r: Option<Description>)
        requires
            old(self).wf(),
            old(self).phase == MinterPhase::Steady,
            rank(old(self).persist_frontier) <= rank(persist),
        ensures
            final(self).wf(),
            (*final(self), r) == old(self).stepped(desired, persist),
            rank(old(self).shared_frontier) <= rank(final(self).shared_frontier),
    {
        self.desired_frontier = desired;
        self.persist_frontier = persist;
        if !self.leader {
            return None;
        }
        if self.shared_frontier.less_than(&persist) {
            self.shared_frontier = persist;
        }
        let moved = match self.emitted_persist_frontier {
            None => true,
            Some(e) => e.less_than(&persist),
        };
        if persist.less_than(&desired) && moved {
            let d = Description { lower: persist, upper: desired };
            let lower_time = match persist {
                Frontier::At(t) => t,
                Frontier::Empty => { return None; }
            };
            self.emitted_persist_frontier = Some(persist);
            self.capability = step_forward(lower_time);
            self.minted = Ghost(self.minted@.push(d));
            proof {
                let m0 = old(self).minted@;
                assert forall|i: int| 0 <= i < m0.len() implies rank((#[trigger] m0[i]).lower) < rank(d.lower) by {
                    if i < m0.len() - 1 {
                        assert(rank(m0[i].lower) < rank(m0[m0.len() - 1].lower));
                    }
                }
                assert(self.minted@[self.minted@.len() - 1] == d);
            }
            Some(d)
        } else {
            None
        }
    }
}

/// Every description a minter has minted is well formed and starts at or
/// beyond `as_of`.
pub proof fn lemma_minted_descriptions_valid(m: &Minter, i: int)
    requires
        m.wf(),
        0 <= i < m.minted@.len(),
    ensures
        rank(m.minted@[i].lower) < rank(m.minted@[i].upper),
        rank(m.as_of) <= rank(m.minted@[i].lower),
{
}

/// The descriptions a minter mints have distinct lowers, ordered as they were
/// minted.
pub proof fn lemma_minted_lowers_increase(m: &Minter, i: int, j: int)
    requires
        m.wf(),
        0 <= i < j < m.minted@.len(),
    ensures
        rank(m.minted@[i].lower) < rank(m.minted@[j].lower),
{
}

/// An instance that does not lead never mints, and keeps publishing the
/// empty frontier, whatever its inputs do.
pub proof fn lemma_non_leader_is_silent(m: Minter, desired: Frontier, persist: Frontier)
    requires
        m.wf(),
        !m.leader,
    ensures
        m.stepped(desired, persist).1.is_none(),
        m.stepped(desired, persist).0.shared_frontier == Frontier::Empty,
        m.stepped(desired, persist).0.capability == Frontier::Empty,
{
}

/// With the persist frontier where it stood at the last minting, a new
/// desired frontier mints nothing.
pub proof fn lemma_no_mint_without_persist_progress(m: Minter, desired: Frontier)
    requires
        m.wf(),
        m.emitted_persist_frontier == Some(m.persist_frontier),
    ensures
        m.stepped(desired, m.persist_frontier).1.is_none(),
{
}

/// The shared frontier never moves back, whatever the next input frontiers.
pub proof fn lemma_shared_frontier_monotone(m: Minter, desired: Frontier, persist: Frontier)
    ensures
        rank(m.shared_frontier) <= rank(m.stepped(desired, persist).0.shared_frontier),
{
}

/// Once the leader's feedback input reports an upper at or past the
/// appender's successful commit over `d`, the shared frontier is at or past
/// `d.upper`.
pub proof fn lemma_commit_advances_shared_frontier(m: Minter, appender_capability: Frontier, d: Description)
    requires
        m.wf(),
        m.leader,
        m.phase == MinterPhase::Steady,
    ensures
        ({
            let fed_back = capability_after_commit(appender_capability, d, Ok(()));
            let next = m.stepped(m.desired_frontier, join_of(m.persist_frontier, fed_back)).0;
            rank(d.upper) <= rank(next.shared_frontier)
        }),
{
}

} // verus!
